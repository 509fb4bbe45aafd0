//! The 68-byte greeting that opens every peer connection.
use vstd::prelude::*;

use crate::wire::{push_all, read_array};

verus! {

/// Length of a handshake on the wire.
pub const HANDSHAKE_LEN: usize = 68;

/// The protocol name, "BitTorrent protocol", as bytes.
pub open spec fn protocol_name() -> Seq<u8> {
    seq![66u8, 105, 116, 84, 111, 114, 114, 101, 110, 116, 32, 112, 114, 111, 116, 111, 99, 111, 108]
}

fn protocol_name_bytes() -> (r: [u8; 19])
    ensures
        r@ == protocol_name(),
{
    let r: [u8; 19] = [66, 105, 116, 84, 111, 114, 114, 101, 110, 116, 32, 112, 114, 111, 116, 111, 99, 111, 108];
    assert(r@ =~= protocol_name());
    r
}

/// Why a peer's handshake was not accepted.
#[derive(Debug, Clone, Copy, PartialEq, Eq, Structural)]
pub enum HandshakeError {
    /// The buffer did not hold exactly 68 bytes.
    WrongLength,
    /// The peer announced another content hash.
    InfoHashMismatch,
}

pub struct Handshake {
    pub protocol_len: u8,
    pub protocol_string: [u8; 19],
    pub reserved: [u8; 8],
    pub info_hash: [u8; 20],
    pub peer_id: [u8; 20],
}

impl Handshake {
    /// The bytes of this handshake on the wire.
    pub open spec fn wire(&self) -> Seq<u8> {
        seq![self.protocol_len] + self.protocol_string@ + self.reserved@ + self.info_hash@
            + self.peer_id@
    }

    pub fn new(info_hash: [u8; 20], peer_id: [u8; 20]) -> (r: Self)
        ensures
            r.protocol_len == 19,
            r.protocol_string@ == protocol_name(),
            r.reserved@ == seq![0u8; 8],
            r.info_hash == info_hash,
            r.peer_id == peer_id,
    {
        let reserved: [u8; 8] = [0u8; 8];
        assert(reserved@ =~= seq![0u8; 8]);
        Handshake {
            protocol_len: 19,
            protocol_string: protocol_name_bytes(),
            reserved,
            info_hash,
            peer_id,
        }
    }

    /// Reads a handshake; `None` unless `buf` holds exactly 68 bytes.
    pub fn from_bytes(buf: &[u8]) -> (r: Option<Self>)
        ensures
            r is None <==> buf@.len() != HANDSHAKE_LEN,
            r matches Some(h) ==> {
                &&& h.wire() == buf@
                &&& h.protocol_len == buf@[0]
                &&& h.protocol_string@ == buf@.subrange(1, 20)
                &&& h.reserved@ == buf@.subrange(20, 28)
                &&& h.info_hash@ == buf@.subrange(28, 48)
                &&& h.peer_id@ == buf@.subrange(48, 68)
            },
    {
        if buf.len() != HANDSHAKE_LEN {
            return None;
        }
        let h = Handshake {
            protocol_len: buf[0],
            protocol_string: read_array(buf, 1),
            reserved: read_array(buf, 20),
            info_hash: read_array(buf, 28),
            peer_id: read_array(buf, 48),
        };
        assert(h.wire() =~= buf@);
        Some(h)
    }

    pub fn to_bytes(&self) -> (r: Vec<u8>)
        ensures
            r@ == self.wire(),
            r@.len() == HANDSHAKE_LEN,
    {
        let mut buf: Vec<u8> = Vec::with_capacity(HANDSHAKE_LEN);
        buf.push(self.protocol_len);
        push_all(&mut buf, self.protocol_string.as_slice());
        push_all(&mut buf, self.reserved.as_slice());
        push_all(&mut buf, self.info_hash.as_slice());
        push_all(&mut buf, self.peer_id.as_slice());
        assert(buf@ =~= self.wire());
        buf
    }

    /// Checks the handshake a peer sent back against this one: the content
    /// hashes must agree byte for byte. On success, yields the peer's id.
    pub fn check_reply(&self, reply: &[u8]) -> (r: Result<[u8; 20], HandshakeError>)
        ensures
            reply@.len() != HANDSHAKE_LEN ==> r == Err::<[u8; 20], _>(HandshakeError::WrongLength),
            reply@.len() == HANDSHAKE_LEN && reply@.subrange(28, 48) != self.info_hash@ ==> r
                == Err::<[u8; 20], _>(HandshakeError::InfoHashMismatch),
            reply@.len() == HANDSHAKE_LEN && reply@.subrange(28, 48) == self.info_hash@ ==> (r matches Ok(
                id) && id@ == reply@.subrange(48, 68)),
    {
        match Handshake::from_bytes(reply) {
            None => Err(HandshakeError::WrongLength),
            Some(peer) => {
                let mut i: usize = 0;
                while i < 20
                    invariant
                        i <= 20,
                        reply@.len() == HANDSHAKE_LEN,
                        peer.info_hash@ == reply@.subrange(28, 48),
                        peer.peer_id@ == reply@.subrange(48, 68),
                        forall|j: int| 0 <= j < i ==> peer.info_hash@[j] == self.info_hash@[j],
                    decreases 20 - i,
                {
                    if peer.info_hash[i] != self.info_hash[i] {
                        assert(reply@.subrange(28, 48)[i as int] != self.info_hash@[i as int]);
                        return Err(HandshakeError::InfoHashMismatch);
                    }
                    i += 1;
                }
                assert(peer.info_hash@ =~= self.info_hash@);
                Ok(peer.peer_id)
            }
        }
    }
}

/// Writing out the handshake read from a 68-byte buffer gives that buffer
/// back.
pub proof fn lemma_handshake_round_trip(b: Seq<u8>, h: Handshake)
    requires
        b.len() == HANDSHAKE_LEN,
        h.protocol_len == b[0],
        h.protocol_string@ == b.subrange(1, 20),
        h.reserved@ == b.subrange(20, 28),
        h.info_hash@ == b.subrange(28, 48),
        h.peer_id@ == b.subrange(48, 68),
    ensures
        h.wire() == b,
{
    assert(h.wire() =~= b);
}

/// The wire form of a handshake determines every field, so reading back a
/// handshake's own bytes gives the same handshake.
pub proof fn lemma_wire_determines_handshake(a: Handshake, b: Handshake)
    requires
        a.wire() == b.wire(),
    ensures
        a == b,
        a.wire().len() == HANDSHAKE_LEN,
{
    let w = a.wire();
    assert(a.protocol_string@ =~= w.subrange(1, 20));
    assert(b.protocol_string@ =~= w.subrange(1, 20));
    assert(a.reserved@ =~= w.subrange(20, 28));
    assert(b.reserved@ =~= w.subrange(20, 28));
    assert(a.info_hash@ =~= w.subrange(28, 48));
    assert(b.info_hash@ =~= w.subrange(28, 48));
    assert(a.peer_id@ =~= w.subrange(48, 68));
    assert(b.peer_id@ =~= w.subrange(48, 68));
    assert(a.protocol_len == w[0]);
    assert(b.protocol_len == w[0]);
    broadcast use vstd::array::axiom_array_ext_equal;

    assert(a.protocol_string =~= b.protocol_string);
    assert(a.reserved =~= b.reserved);
    assert(a.info_hash =~= b.info_hash);
    assert(a.peer_id =~= b.peer_id);
}

} // verus!
