//! What is sent to the tracker, and what it answers: a failure reason, or an
//! interval and a compact list of peers.
use vstd::prelude::*;

use crate::bencode::{decode, decode_spec, lemma_value_view, BencodeValue, DecodeError, Term};
use crate::metainfo::{dict_bytes, dict_int, lookup_bytes, lookup_int};
use crate::wire::push_all;

verus! {

/// The fields of an announce request that go into its query string; the
/// content hash is added to the query separately, percent-encoded.
pub struct TrackerRequest {
    pub peer_id: String,
    pub port: u32,
    pub uploaded: usize,
    pub downloaded: usize,
    pub left: usize,
    /// 1 asks for the compact peer list.
    pub compact: u8,
}

impl TrackerRequest {
    /// A first announce: nothing sent or received yet, `left` bytes to go,
    /// compact peer list wanted.
    pub fn new(peer_id: String, port: u32, left: usize) -> (r: TrackerRequest)
        ensures
            r.peer_id == peer_id,
            r.port == port,
            r.uploaded == 0,
            r.downloaded == 0,
            r.left == left,
            r.compact == 1,
    {
        TrackerRequest { peer_id, port, uploaded: 0, downloaded: 0, left, compact: 1 }
    }
}

/// ASCII letters and digits and `-`, `.`, `_`, `~`: the bytes that stand
/// for themselves in a URL.
pub open spec fn unreserved(b: u8) -> bool {
    (48 <= b <= 57) || (65 <= b <= 90) || (97 <= b <= 122) || b == 45 || b == 46 || b == 95 || b == 126
}

/// Upper-case hex digit of `d < 16`.
pub open spec fn hex_digit(d: u8) -> u8 {
    if d < 10 {
        (48 + d) as u8
    } else {
        (55 + d) as u8
    }
}

/// Percent-encoding: each byte that is not unreserved becomes `%` and its
/// two upper-case hex digits.
pub open spec fn percent_encoded(data: Seq<u8>) -> Seq<u8>
    decreases data.len(),
{
    if data.len() == 0 {
        Seq::empty()
    } else {
        let b = data.last();
        percent_encoded(data.drop_last()) + if unreserved(b) {
            seq![b]
        } else {
            seq![37u8, hex_digit(b >> 4u8), hex_digit(b & 15u8)]
        }
    }
}

/// Relies on `urlencoding::encode_binary`: every byte but ASCII letters,
/// digits and `-`, `.`, `_`, `~` becomes `%` and two upper-case hex digits.
#[verifier::external_body]
fn percent_encode(data: &[u8]) -> (r: Vec<u8>)
    ensures
        r@ == percent_encoded(data@),
{
    urlencoding::encode_binary(data).as_bytes().to_vec()
}

/// "?info_hash="
pub open spec fn info_hash_param() -> Seq<u8> {
    seq![63u8, 105, 110, 102, 111, 95, 104, 97, 115, 104, 61]
}

/// The announce URL: the tracker's address, the percent-encoded content
/// hash, then the other query fields, already encoded.
pub fn announce_url(announce: &[u8], info_hash: &[u8; 20], query: &[u8]) -> (r: Vec<u8>)
    ensures
        r@ == announce@ + info_hash_param() + percent_encoded(info_hash@) + seq![38u8] + query@,
{
    let mut out: Vec<u8> = Vec::new();
    push_all(&mut out, announce);
    let param: [u8; 11] = [63, 105, 110, 102, 111, 95, 104, 97, 115, 104, 61];
    push_all(&mut out, param.as_slice());
    let enc = percent_encode(info_hash.as_slice());
    push_all(&mut out, enc.as_slice());
    out.push(38);
    push_all(&mut out, query);
    assert(param@ =~= info_hash_param());
    assert(out@ =~= announce@ + info_hash_param() + percent_encoded(info_hash@) + seq![38u8] + query@);
    out
}

/// An IPv4 peer.
#[derive(Debug, Clone, Copy, PartialEq, Eq)]
pub struct PeerAddress {
    pub ip: [u8; 4],
    pub port: u16,
}

/// `p` is the peer of record `i` of a compact peer list.
pub open spec fn compact_record(blob: Seq<u8>, i: int, p: PeerAddress) -> bool {
    &&& p.ip@ == blob.subrange(6 * i, 6 * i + 4)
    &&& p.port == blob[6 * i + 4] * 256 + blob[6 * i + 5]
}

/// Reads the compact peer list: six bytes per peer, the address in network
/// order, then the port, big-endian. Bytes after the last whole record are
/// ignored.
pub fn parse_compact_peers(blob: &[u8]) -> (r: Vec<PeerAddress>)
    ensures
        r@.len() == blob@.len() / 6,
        forall|i: int| 0 <= i < r@.len() ==> compact_record(blob@, i, #[trigger] r@[i]),
{
    let len = blob.len();
    let n = len / 6;
    let mut out: Vec<PeerAddress> = Vec::new();
    let mut i: usize = 0;
    while i < n
        invariant
            n == blob@.len() / 6,
            len == blob@.len(),
            i <= n,
            out@.len() == i,
            forall|j: int| 0 <= j < i ==> compact_record(blob@, j, #[trigger] out@[j]),
        decreases n - i,
    {
        assert(6 * i + 6 <= len) by (nonlinear_arith)
            requires
                i < n,
                n == len / 6,
        ;
        let at = 6 * i;
        let ip: [u8; 4] = crate::wire::read_array(blob, at);
        let port = (blob[at + 4] as u16) * 256 + blob[at + 5] as u16;
        out.push(PeerAddress { ip, port });
        i += 1;
    }
    out
}

/// What a tracker answered.
pub enum TrackerResponse {
    Failure { failure_reason: Vec<u8> },
    Peers { interval: u64, peers: Vec<PeerAddress> },
}

/// Why a tracker's answer could not be read.
#[derive(Debug, Clone, Copy, PartialEq, Eq, Structural)]
pub enum TrackerError {
    Decode(DecodeError),
    /// Neither a failure reason nor an interval and a peer list.
    Malformed,
}

/// "failure reason"
pub open spec fn key_failure_reason() -> Seq<u8> {
    seq![102u8, 97, 105, 108, 117, 114, 101, 32, 114, 101, 97, 115, 111, 110]
}

pub open spec fn key_interval() -> Seq<u8> {
    seq![105u8, 110, 116, 101, 114, 118, 97, 108]
}

pub open spec fn key_peers() -> Seq<u8> {
    seq![112u8, 101, 101, 114, 115]
}

/// Which kind of answer the decoded value `t` is: `Some(true)` for a
/// failure, `Some(false)` for a peer list, `None` for neither.
pub open spec fn response_kind(t: Term) -> Option<bool> {
    match t {
        Term::Dict(d) => if lookup_bytes(d, key_failure_reason()) is Some {
            Some(true)
        } else if lookup_int(d, key_interval()) matches Some(i) && i >= 0 && lookup_bytes(d, key_peers()) is Some {
            Some(false)
        } else {
            None
        },
        _ => None,
    }
}

impl TrackerResponse {
    /// Reads a tracker's bencoded answer.
    pub fn from_bytes(b: &[u8]) -> (r: Result<TrackerResponse, TrackerError>)
        ensures
            match decode_spec(b@) {
                None => r matches Err(TrackerError::Decode(_)),
                Some((t, _)) => match response_kind(t) {
                    None => r == Err::<TrackerResponse, _>(TrackerError::Malformed),
                    Some(true) => r matches Ok(TrackerResponse::Failure { failure_reason })
                        && failure_reason@ == lookup_bytes(t->Dict_0, key_failure_reason())->0,
                    Some(false) => r matches Ok(TrackerResponse::Peers { interval, peers }) && {
                        let blob = lookup_bytes(t->Dict_0, key_peers())->0;
                        &&& interval == lookup_int(t->Dict_0, key_interval())->0
                        &&& peers@.len() == blob.len() / 6
                        &&& forall|i: int| 0 <= i < peers@.len() ==> compact_record(blob, i, #[trigger] peers@[i])
                    },
                },
            },
    {
        let v = match decode(b) {
            Err(e) => {
                return Err(TrackerError::Decode(e));
            },
            Ok((v, _)) => v,
        };
        proof {
            lemma_value_view(v);
        }
        let d = match &v {
            BencodeValue::Dictionary(d) => d,
            _ => {
                return Err(TrackerError::Malformed);
            },
        };
        let k_failure: [u8; 14] = [102, 97, 105, 108, 117, 114, 101, 32, 114, 101, 97, 115, 111, 110];
        let k_interval: [u8; 8] = [105, 110, 116, 101, 114, 118, 97, 108];
        let k_peers: [u8; 5] = [112, 101, 101, 114, 115];
        assert(k_failure@ =~= key_failure_reason());
        assert(k_interval@ =~= key_interval());
        assert(k_peers@ =~= key_peers());
        if let Some(reason) = dict_bytes(d, k_failure.as_slice()) {
            return Ok(TrackerResponse::Failure { failure_reason: reason });
        }
        match (dict_int(d, k_interval.as_slice()), dict_bytes(d, k_peers.as_slice())) {
            (Some(interval), Some(blob)) => {
                if interval < 0 {
                    return Err(TrackerError::Malformed);
                }
                let peers = parse_compact_peers(blob.as_slice());
                Ok(TrackerResponse::Peers { interval: interval as u64, peers })
            },
            _ => Err(TrackerError::Malformed),
        }
    }
}

} // verus!
