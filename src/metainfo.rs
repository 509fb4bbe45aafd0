//! Torrent metadata read from its bencoded form, and the content hash.
use vstd::prelude::*;

use crate::bencode::{
    decode, decode_spec, dict_lookup, dict_of_pairs, encode, encode_term, lemma_insertion_order,
    lemma_value_view, map_of_pairs, BencodeValue, DecodeError, Dict, Term,
};
use crate::digest::{sha1_digest, sha1_of};
use crate::wire::read_array;

verus! {

/// Length of one piece hash.
pub const HASH_LEN: usize = 20;

pub open spec fn key_announce() -> Seq<u8> {
    seq![97u8, 110, 110, 111, 117, 110, 99, 101]
}

pub open spec fn key_info() -> Seq<u8> {
    seq![105u8, 110, 102, 111]
}

pub open spec fn key_name() -> Seq<u8> {
    seq![110u8, 97, 109, 101]
}

pub open spec fn key_length() -> Seq<u8> {
    seq![108u8, 101, 110, 103, 116, 104]
}

/// "piece length"
pub open spec fn key_piece_length() -> Seq<u8> {
    seq![112u8, 105, 101, 99, 101, 32, 108, 101, 110, 103, 116, 104]
}

pub open spec fn key_pieces() -> Seq<u8> {
    seq![112u8, 105, 101, 99, 101, 115]
}

/// `ceil(a / b)`
pub open spec fn ceil_div(a: int, b: int) -> int {
    (a + b - 1) / b
}

/// The byte string under `k`, if there is one.
pub open spec fn lookup_bytes(d: Seq<(Seq<u8>, Term)>, k: Seq<u8>) -> Option<Seq<u8>> {
    match dict_lookup(d, k) {
        Some(Term::Bytes(b)) => Some(b),
        _ => None,
    }
}

/// The integer under `k`, if there is one.
pub open spec fn lookup_int(d: Seq<(Seq<u8>, Term)>, k: Seq<u8>) -> Option<int> {
    match dict_lookup(d, k) {
        Some(Term::Int(i)) => Some(i),
        _ => None,
    }
}

/// Why metadata was not accepted.
#[derive(Debug, Clone, Copy, PartialEq, Eq, Structural)]
pub enum MetainfoError {
    /// A required key is absent, or holds the wrong kind of value.
    Malformed,
    /// The piece hashes do not come to a whole number of 20-byte hashes.
    HashShape,
    /// The number of piece hashes is not `ceil(length / piece length)`.
    PieceCount,
}

/// Whether the `info` value `t` is acceptable, and if not, why.
pub open spec fn info_check(t: Term) -> Result<(), MetainfoError> {
    match t {
        Term::Dict(d) => {
            if lookup_bytes(d, key_name()) is None || !(lookup_int(d, key_length()) matches Some(l)
                && l >= 0) || !(lookup_int(d, key_piece_length()) matches Some(p) && p > 0)
                || lookup_bytes(d, key_pieces()) is None {
                Err(MetainfoError::Malformed)
            } else {
                let pieces = lookup_bytes(d, key_pieces())->0;
                let l = lookup_int(d, key_length())->0;
                let p = lookup_int(d, key_piece_length())->0;
                if pieces.len() % 20 != 0 {
                    Err(MetainfoError::HashShape)
                } else if pieces.len() / 20 != ceil_div(l, p) {
                    Err(MetainfoError::PieceCount)
                } else {
                    Ok(())
                }
            }
        },
        _ => Err(MetainfoError::Malformed),
    }
}

/// The 20-byte piece hashes, in piece order.
pub struct Hashes {
    pub data: Vec<[u8; 20]>,
}

impl Hashes {
    /// The hashes, each as a byte sequence.
    pub open spec fn hashes(&self) -> Seq<Seq<u8>> {
        Seq::new(self.data@.len(), |i: int| self.data@[i]@)
    }

    /// Splits `b` into 20-byte hashes; its length must be a multiple of 20.
    pub fn from_bytes(b: &[u8]) -> (r: Result<Hashes, MetainfoError>)
        ensures
            b@.len() % 20 != 0 ==> r == Err::<Hashes, _>(MetainfoError::HashShape),
            b@.len() % 20 == 0 ==> (r matches Ok(h) && h.data@.len() == b@.len() / 20 && forall|i: int|
                0 <= i < h.data@.len() ==> #[trigger] h.data@[i]@ == b@.subrange(20 * i, 20 * i + 20)),
    {
        if b.len() % HASH_LEN != 0 {
            return Err(MetainfoError::HashShape);
        }
        let len = b.len();
        let n = len / HASH_LEN;
        let mut data: Vec<[u8; 20]> = Vec::new();
        let mut i: usize = 0;
        while i < n
            invariant
                n == b@.len() / 20,
                len == b@.len(),
                b@.len() % 20 == 0,
                i <= n,
                data@.len() == i,
                forall|j: int| 0 <= j < i ==> #[trigger] data@[j]@ == b@.subrange(20 * j, 20 * j + 20),
            decreases n - i,
        {
            assert(20 * i + 20 <= b@.len()) by (nonlinear_arith)
                requires
                    i < n,
                    n == b@.len() / 20,
                    b@.len() % 20 == 0,
            ;
            let h: [u8; 20] = read_array(b, HASH_LEN * i);
            data.push(h);
            i += 1;
        }
        Ok(Hashes { data })
    }

    /// The hashes one after another, as they stand in the metadata.
    pub fn to_bytes(&self) -> (r: Vec<u8>)
        ensures
            r@.len() == 20 * self.data@.len(),
            forall|i: int| 0 <= i < self.data@.len() ==> r@.subrange(20 * i, 20 * i + 20) == #[trigger] self.data@[i]@,
    {
        let mut out: Vec<u8> = Vec::new();
        let mut i: usize = 0;
        while i < self.data.len()
            invariant
                i <= self.data@.len(),
                out@.len() == 20 * i,
                forall|j: int| 0 <= j < i ==> out@.subrange(20 * j, 20 * j + 20) == #[trigger] self.data@[j]@,
            decreases self.data@.len() - i,
        {
            let ghost before = out@;
            crate::wire::push_all(&mut out, self.data[i].as_slice());
            assert forall|j: int| 0 <= j < i + 1 implies out@.subrange(20 * j, 20 * j + 20) == #[trigger] self.data@[j]@ by {
                if j < i {
                    assert(out@.subrange(20 * j, 20 * j + 20) =~= before.subrange(20 * j, 20 * j + 20));
                } else {
                    assert(out@.subrange(20 * j, 20 * j + 20) =~= self.data@[j]@);
                }
            }
            i += 1;
        }
        out
    }
}

/// The `info` part of a torrent.
pub struct Info {
    /// Total length of the content in bytes.
    pub length: u64,
    pub name: Vec<u8>,
    /// Nominal size of a piece; every piece but the last has it.
    pub piece_length: u64,
    pub pieces: Hashes,
    /// The `info` dictionary as it was read; the content hash covers it whole.
    pub value: BencodeValue,
}

/// A torrent file: where the tracker is, and what the content is.
pub struct Torrent {
    pub announce: Vec<u8>,
    pub info: Info,
}

fn lookup<'a>(d: &'a Dict, key: &[u8]) -> (r: Option<&'a BencodeValue>)
    ensures
        match dict_lookup(d@, key@) {
            None => r is None,
            Some(t) => r matches Some(v) && v@ == t,
        },
{
    d.get(key)
}

/// The byte string under `key`, copied.
pub fn dict_bytes(d: &Dict, key: &[u8]) -> (r: Option<Vec<u8>>)
    ensures
        match lookup_bytes(d@, key@) {
            None => r is None,
            Some(b) => r matches Some(v) && v@ == b,
        },
{
    match lookup(d, key) {
        Some(v) => {
            proof {
                lemma_value_view(*v);
            }
            match v {
                BencodeValue::ByteString(b) => Some(crate::wire::copy_range(b.as_slice(), 0, b.len())),
                _ => None,
            }
        },
        None => None,
    }
}

/// The integer under `key`.
pub fn dict_int(d: &Dict, key: &[u8]) -> (r: Option<i64>)
    ensures
        match lookup_int(d@, key@) {
            None => r is None,
            Some(i) => r matches Some(v) && v as int == i,
        },
{
    match lookup(d, key) {
        Some(v) => {
            proof {
                lemma_value_view(*v);
            }
            match v {
                BencodeValue::Integer(i) => Some(*i),
                _ => None,
            }
        },
        None => None,
    }
}

impl Info {
    /// Reads the `info` dictionary `v`.
    pub fn from_value(v: BencodeValue) -> (r: Result<Info, MetainfoError>)
        ensures
            match info_check(v@) {
                Err(e) => r == Err::<Info, _>(e),
                Ok(()) => r matches Ok(info) && {
                    let d = v@->Dict_0;
                    &&& info.value@ == v@
                    &&& info.name@ == lookup_bytes(d, key_name())->0
                    &&& info.length == lookup_int(d, key_length())->0
                    &&& info.piece_length == lookup_int(d, key_piece_length())->0
                    &&& info.wf()
                    &&& forall|i: int| 0 <= i < info.pieces.data@.len() ==> #[trigger] info.pieces.data@[i]@
                        == lookup_bytes(d, key_pieces())->0.subrange(20 * i, 20 * i + 20)
                },
            },
    {
        proof {
            lemma_value_view(v);
        }
        let d = match &v {
            BencodeValue::Dictionary(d) => d,
            _ => {
                return Err(MetainfoError::Malformed);
            },
        };
        let k_name: [u8; 4] = [110, 97, 109, 101];
        let k_length: [u8; 6] = [108, 101, 110, 103, 116, 104];
        let k_piece_length: [u8; 12] = [112, 105, 101, 99, 101, 32, 108, 101, 110, 103, 116, 104];
        let k_pieces: [u8; 6] = [112, 105, 101, 99, 101, 115];
        assert(k_name@ =~= key_name());
        assert(k_length@ =~= key_length());
        assert(k_piece_length@ =~= key_piece_length());
        assert(k_pieces@ =~= key_pieces());
        let name = dict_bytes(d, k_name.as_slice());
        let length = dict_int(d, k_length.as_slice());
        let piece_length = dict_int(d, k_piece_length.as_slice());
        let raw = dict_bytes(d, k_pieces.as_slice());
        let (name, length, piece_length, raw) = match (name, length, piece_length, raw) {
            (Some(n), Some(l), Some(p), Some(h)) => {
                if l < 0 || p <= 0 {
                    return Err(MetainfoError::Malformed);
                }
                (n, l as u64, p as u64, h)
            },
            _ => {
                return Err(MetainfoError::Malformed);
            },
        };
        let pieces = match Hashes::from_bytes(raw.as_slice()) {
            Ok(h) => h,
            Err(e) => {
                return Err(e);
            },
        };
        if pieces.data.len() as u64 != (length + piece_length - 1) / piece_length {
            return Err(MetainfoError::PieceCount);
        }
        Ok(Info { length, name, piece_length, pieces, value: v })
    }

    /// The content hash: the SHA-1 digest of the canonical encoding of the
    /// `info` dictionary.
    pub fn calc_hash(&self) -> (r: [u8; 20])
        ensures
            r@ == sha1_of(encode_term(self.value@)),
    {
        let bytes = encode(&self.value);
        sha1_digest(bytes.as_slice())
    }

    /// How many pieces the content has.
    pub fn piece_count(&self) -> (r: usize)
        ensures
            r == self.pieces.data@.len(),
    {
        self.pieces.data.len()
    }
}

/// Why a torrent file was not accepted.
#[derive(Debug, Clone, Copy, PartialEq, Eq, Structural)]
pub enum TorrentError {
    Decode(DecodeError),
    /// The file is not a dictionary with a byte-string `announce` and an
    /// `info` dictionary.
    Malformed,
    Info(MetainfoError),
}

/// Whether a decoded torrent file `t` is acceptable, and if not, why.
pub open spec fn torrent_check(t: Term) -> Result<(), TorrentError> {
    match t {
        Term::Dict(d) => {
            if lookup_bytes(d, key_announce()) is None || !(dict_lookup(d, key_info()) matches Some(
                i,
            ) && i is Dict) {
                Err(TorrentError::Malformed)
            } else {
                match info_check(dict_lookup(d, key_info())->0) {
                    Err(e) => Err(TorrentError::Info(e)),
                    Ok(()) => Ok(()),
                }
            }
        },
        _ => Err(TorrentError::Malformed),
    }
}

impl Torrent {
    /// Reads a decoded torrent file.
    pub fn from_value(v: &BencodeValue) -> (r: Result<Torrent, TorrentError>)
        ensures
            match torrent_check(v@) {
                Err(e) => r == Err::<Torrent, _>(e),
                Ok(()) => r matches Ok(t) && {
                    let d = v@->Dict_0;
                    &&& t.announce@ == lookup_bytes(d, key_announce())->0
                    &&& t.info.value@ == dict_lookup(d, key_info())->0
                    &&& t.info.wf()
                },
            },
    {
        proof {
            lemma_value_view(*v);
        }
        let d = match v {
            BencodeValue::Dictionary(d) => d,
            _ => {
                return Err(TorrentError::Malformed);
            },
        };
        let k_announce: [u8; 8] = [97, 110, 110, 111, 117, 110, 99, 101];
        let k_info: [u8; 4] = [105, 110, 102, 111];
        assert(k_announce@ =~= key_announce());
        assert(k_info@ =~= key_info());
        let announce = match dict_bytes(d, k_announce.as_slice()) {
            Some(a) => a,
            None => {
                return Err(TorrentError::Malformed);
            },
        };
        let info_value = match lookup(d, k_info.as_slice()) {
            Some(i) => {
                proof {
                    lemma_value_view(*i);
                }
                match i {
                    BencodeValue::Dictionary(_) => i.duplicate(),
                    _ => {
                        return Err(TorrentError::Malformed);
                    },
                }
            },
            None => {
                return Err(TorrentError::Malformed);
            },
        };
        match Info::from_value(info_value) {
            Ok(info) => Ok(Torrent { announce, info }),
            Err(e) => Err(TorrentError::Info(e)),
        }
    }

    /// Decodes and reads a torrent file; bytes after the top-level value are
    /// ignored.
    pub fn from_bytes(b: &[u8]) -> (r: Result<Torrent, TorrentError>)
        ensures
            match decode_spec(b@) {
                None => r matches Err(TorrentError::Decode(_)),
                Some((t, _)) => match torrent_check(t) {
                    Err(e) => r == Err::<Torrent, _>(e),
                    Ok(()) => r matches Ok(tor) && {
                        let d = t->Dict_0;
                        &&& tor.announce@ == lookup_bytes(d, key_announce())->0
                        &&& tor.info.value@ == dict_lookup(d, key_info())->0
                        &&& tor.info.wf()
                    },
                },
            },
    {
        match decode(b) {
            Err(e) => Err(TorrentError::Decode(e)),
            Ok((v, _)) => Torrent::from_value(&v),
        }
    }
}

/// `ceil(length / piece_length)` pieces cover the content.
pub fn piece_count(length: u64, piece_length: u64) -> (r: u64)
    requires
        piece_length > 0,
    ensures
        r == ceil_div(length as int, piece_length as int),
{
    proof {
        lemma_ceil_div(length as int, piece_length as int);
    }
    let q = length / piece_length;
    if length % piece_length == 0 {
        q
    } else {
        q + 1
    }
}

/// How `ceil_div` relates to division and remainder.
pub proof fn lemma_ceil_div(a: int, b: int)
    requires
        a >= 0,
        b > 0,
    ensures
        a % b == 0 ==> ceil_div(a, b) == a / b,
        a % b != 0 ==> ceil_div(a, b) == a / b + 1,
        a / b <= a,
        ceil_div(a, b) >= 0,
        a > 0 ==> b * (ceil_div(a, b) - 1) < a <= b * ceil_div(a, b),
        a % b != 0 ==> a / b < a,
        a == 0 ==> ceil_div(a, b) == 0,
{
    assert(a == b * (a / b) + a % b) by (nonlinear_arith)
        requires
            b > 0,
    ;
    assert(0 <= a % b < b) by (nonlinear_arith)
        requires
            b > 0,
    ;
    assert(a / b <= a) by (nonlinear_arith)
        requires
            a >= 0,
            b > 0,
    ;
    let q = a / b;
    if a % b == 0 {
        assert((a + b - 1) / b == a / b) by (nonlinear_arith)
            requires
                a == b * (a / b),
                b > 0,
        ;
        assert(b * (q - 1) == a - b) by (nonlinear_arith)
            requires
                a == b * q,
        ;
    } else {
        assert((a + b - 1) / b == a / b + 1) by (nonlinear_arith)
            requires
                a == b * (a / b) + a % b,
                0 < a % b < b,
                b > 0,
        ;
        assert(b * (q + 1) == b * q + b) by (nonlinear_arith);
        assert(q <= b * q) by (nonlinear_arith)
            requires
                q >= 0,
                b > 0,
        ;
    }
    assert(a / b >= 0) by (nonlinear_arith)
        requires
            a >= 0,
            b > 0,
    ;
}

/// Size of piece `index`: the nominal length, but for the last piece,
/// which has what is left.
pub open spec fn piece_size_spec(length: int, piece_length: int, count: int, index: int) -> int {
    if index < count - 1 {
        piece_length
    } else {
        length - piece_length * (count - 1)
    }
}

/// Size of piece `index` of content of `length` bytes cut into pieces of
/// `piece_length` bytes.
pub fn piece_size(length: u64, piece_length: u64, index: u64) -> (r: u64)
    requires
        piece_length > 0,
        index < ceil_div(length as int, piece_length as int),
    ensures
        r == piece_size_spec(
            length as int,
            piece_length as int,
            ceil_div(length as int, piece_length as int),
            index as int,
        ),
        0 < r <= piece_length,
{
    let count = piece_count(length, piece_length);
    proof {
        lemma_ceil_div(length as int, piece_length as int);
    }
    if index < count - 1 {
        piece_length
    } else {
        assert(piece_length * (count - 1) < length);
        assert(piece_length * count == piece_length * (count - 1) + piece_length) by (nonlinear_arith);
        assert(piece_length * (count - 1) <= u64::MAX) by (nonlinear_arith)
            requires
                piece_length * (count - 1) < length,
                length <= u64::MAX,
        ;
        length - piece_length * (count - 1)
    }
}

impl Info {
    /// Lengths that fit an `i64`, a nominal piece length above zero, and
    /// `ceil(length / piece_length)` piece hashes.
    pub open spec fn wf(&self) -> bool {
        &&& self.piece_length > 0
        &&& self.length <= i64::MAX
        &&& self.piece_length <= i64::MAX
        &&& self.pieces.data@.len() == ceil_div(self.length as int, self.piece_length as int)
    }

    /// Size of piece `index` of this content.
    pub fn piece_size(&self, index: usize) -> (r: u64)
        requires
            self.wf(),
            index < self.pieces.data@.len(),
        ensures
            r == piece_size_spec(
                self.length as int,
                self.piece_length as int,
                self.pieces.data@.len() as int,
                index as int,
            ),
            0 < r <= self.piece_length,
    {
        piece_size(self.length, self.piece_length, index as u64)
    }
}

/// Two `info` dictionaries that bind the same keys to the same values have
/// the same content hash, whatever order their keys were inserted in.
pub proof fn lemma_content_hash_order_free(ps1: Seq<(Seq<u8>, Term)>, ps2: Seq<(Seq<u8>, Term)>)
    requires
        map_of_pairs(ps1) == map_of_pairs(ps2),
    ensures
        sha1_of(encode_term(Term::Dict(dict_of_pairs(ps1)))) == sha1_of(
            encode_term(Term::Dict(dict_of_pairs(ps2))),
        ),
{
    lemma_insertion_order(ps1, ps2);
}

} // verus!
