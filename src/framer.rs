//! Framing of peer messages over a growable receive buffer:
//! `[4-byte big-endian length][tag][length - 1 bytes of payload]`.
use vstd::prelude::*;

use bytes::BytesMut;

use crate::message::{tag_code, MessageTag, ProtocolError, RawMessage};
use crate::wire::{be_u32_bytes, be_u32_value, copy_range, lemma_be_u32_round_trip, read_be_u32};

verus! {

#[verifier::external_type_specification]
#[verifier::external_body]
pub struct ExBytesMut(BytesMut);

/// The bytes a buffer holds.
pub uninterp spec fn buffer_bytes(b: BytesMut) -> Seq<u8>;

/// Relies on `BytesMut::len`: the number of bytes held.
pub assume_specification[ BytesMut::len ](b: &BytesMut) -> (r: usize)
    ensures
        r == buffer_bytes(*b).len(),
;

/// Relies on `BytesMut::extend_from_slice`: appends the bytes of `extend`.
pub assume_specification[ BytesMut::extend_from_slice ](b: &mut BytesMut, extend: &[u8])
    ensures
        buffer_bytes(*final(b)) == buffer_bytes(*old(b)) + extend@,
;

/// Relies on indexing a `BytesMut` by a range (through `Deref` to `[u8]`)
/// and `<[u8]>::to_vec`: a copy of the bytes `start .. end`.
#[verifier::external_body]
fn buffer_copy(b: &BytesMut, start: usize, end: usize) -> (r: Vec<u8>)
    requires
        start <= end <= buffer_bytes(*b).len(),
    ensures
        r@ == buffer_bytes(*b).subrange(start as int, end as int),
{
    b[start..end].to_vec()
}

/// Relies on `bytes::Buf::advance` for `BytesMut`: drops the first `n`
/// bytes; it panics past the end, which the precondition rules out.
#[verifier::external_body]
fn buffer_advance(b: &mut BytesMut, n: usize)
    requires
        n <= buffer_bytes(*old(b)).len(),
    ensures
        buffer_bytes(*final(b)) == buffer_bytes(*old(b)).subrange(n as int, buffer_bytes(*old(b)).len() as int),
{
    bytes::Buf::advance(b, n)
}

/// Largest frame accepted or sent, counting the tag and payload but not the
/// length prefix.
pub const MAX_FRAME_LEN: u32 = 32768;

/// The bytes of a frame holding `tag` and `payload`.
pub open spec fn frame_bytes(tag: MessageTag, payload: Seq<u8>) -> Seq<u8> {
    be_u32_bytes((payload.len() + 1) as u32) + seq![tag_code(tag)] + payload
}

/// What the decoder makes of a buffer.
pub enum FrameStep {
    /// Too few bytes yet; nothing is consumed.
    NeedMore,
    /// A whole frame, and the bytes after it.
    Frame { tag: MessageTag, payload: Seq<u8>, rest: Seq<u8> },
    /// The frame cannot be accepted; nothing is consumed.
    Fail(ProtocolError),
}

/// The tag whose code is `c`.
pub open spec fn tag_of_code(c: u8) -> MessageTag {
    if c == 0 {
        MessageTag::Choke
    } else if c == 1 {
        MessageTag::Unchoke
    } else if c == 2 {
        MessageTag::Interested
    } else if c == 3 {
        MessageTag::NotInterested
    } else if c == 4 {
        MessageTag::Have
    } else if c == 5 {
        MessageTag::Bitfield
    } else if c == 6 {
        MessageTag::Request
    } else if c == 7 {
        MessageTag::Piece
    } else {
        MessageTag::Cancel
    }
}

/// One step of the decoder on the buffered bytes `buf`, with frames up to
/// `max` bytes long.
pub open spec fn frame_step(buf: Seq<u8>, max: int) -> FrameStep {
    if buf.len() < 4 {
        FrameStep::NeedMore
    } else {
        let n = be_u32_value(buf.subrange(0, 4)) as int;
        if n > max {
            FrameStep::Fail(ProtocolError::FrameTooLarge { length: n as usize })
        } else if buf.len() < 4 + n {
            FrameStep::NeedMore
        } else if n == 0 {
            FrameStep::Fail(ProtocolError::EmptyFrame)
        } else if buf[4] > 8 {
            FrameStep::Fail(ProtocolError::UnknownTag { code: buf[4] })
        } else {
            FrameStep::Frame {
                tag: tag_of_code(buf[4]),
                payload: buf.subrange(5, 4 + n),
                rest: buf.subrange(4 + n, buf.len() as int),
            }
        }
    }
}

/// Fed the bytes of a frame one at a time, the decoder asks for more until
/// the whole frame is buffered; then it yields that frame and leaves the
/// bytes that follow it (the next frame, say) untouched.
pub proof fn lemma_frame_suspension(tag: MessageTag, payload: Seq<u8>, rest: Seq<u8>, max: u32)
    requires
        payload.len() + 1 <= max,
    ensures
        forall|k: int|
            0 <= k < frame_bytes(tag, payload).len() ==> #[trigger] frame_step(
                frame_bytes(tag, payload).take(k),
                max as int,
            ) is NeedMore,
        frame_step(frame_bytes(tag, payload) + rest, max as int) == (FrameStep::Frame {
            tag,
            payload,
            rest,
        }),
{
    let n = (payload.len() + 1) as u32;
    let f = frame_bytes(tag, payload);
    lemma_be_u32_round_trip(n);
    assert(f.subrange(0, 4) =~= be_u32_bytes(n));
    assert forall|k: int| 0 <= k < f.len() implies #[trigger] frame_step(f.take(k), max as int) is NeedMore by {
        if k >= 4 {
            assert(f.take(k).subrange(0, 4) =~= be_u32_bytes(n));
        }
    }
    let b = f + rest;
    assert(b.subrange(0, 4) =~= be_u32_bytes(n));
    assert(b[4] == tag_code(tag));
    assert(tag_of_code(tag_code(tag)) == tag);
    assert(b.subrange(5, 4 + n) =~= payload);
    assert(b.subrange(4 + n, b.len() as int) =~= rest);
}

/// Cuts frames out of a receive buffer and writes them into a send buffer.
pub struct MessageFramer {
    /// Ceiling on a frame's length, tag and payload together.
    pub max_frame_len: u32,
}

impl MessageFramer {
    /// A framer with the usual ceiling of 32768 bytes.
    pub fn new() -> (r: MessageFramer)
        ensures
            r.max_frame_len == MAX_FRAME_LEN,
    {
        MessageFramer { max_frame_len: MAX_FRAME_LEN }
    }

    /// Takes the next whole frame off the front of `src`. Leaves `src` as it
    /// was when more bytes are needed or the frame is refused; otherwise
    /// consumes exactly that frame and keeps the bytes after it.
    pub fn decode(&mut self, src: &mut BytesMut) -> (r: Result<Option<RawMessage>, ProtocolError>)
        ensures
            *final(self) == *old(self),
            match frame_step(buffer_bytes(*old(src)), old(self).max_frame_len as int) {
                FrameStep::NeedMore => r matches Ok(None) && buffer_bytes(*final(src)) == buffer_bytes(*old(src)),
                FrameStep::Fail(e) => r == Err::<Option<RawMessage>, _>(e) && buffer_bytes(*final(src))
                    == buffer_bytes(*old(src)),
                FrameStep::Frame { tag, payload, rest } => r matches Ok(Some(m)) && m.tag == tag
                    && m.payload@ == payload && buffer_bytes(*final(src)) == rest,
            },
    {
        let ghost buf = buffer_bytes(*src);
        let len = src.len();
        if len < 4 {
            return Ok(None);
        }
        let prefix = buffer_copy(src, 0, 4);
        let n32 = read_be_u32(prefix.as_slice(), 0);
        assert(prefix@.subrange(0, 4) =~= buf.subrange(0, 4));
        if n32 > self.max_frame_len {
            return Err(ProtocolError::FrameTooLarge { length: n32 as usize });
        }
        let n = n32 as usize;
        if len - 4 < n {
            return Ok(None);
        }
        if n == 0 {
            return Err(ProtocolError::EmptyFrame);
        }
        let frame = buffer_copy(src, 4, 4 + n);
        let code = frame[0];
        let tag = match MessageTag::from_u8(code) {
            Some(t) => t,
            None => {
                return Err(ProtocolError::UnknownTag { code });
            },
        };
        let payload = copy_range(frame.as_slice(), 1, n);
        buffer_advance(src, 4 + n);
        assert(payload@ =~= buf.subrange(5, 4 + n));
        Ok(Some(RawMessage { tag, payload }))
    }

    /// Appends the frame of `item` to `dst`; refuses, leaving `dst` as it
    /// was, a frame longer than the ceiling.
    pub fn encode(&mut self, item: RawMessage, dst: &mut BytesMut) -> (r: Result<(), ProtocolError>)
        ensures
            *final(self) == *old(self),
            item.payload@.len() + 1 > old(self).max_frame_len ==> r == Err::<(), _>(
                ProtocolError::PayloadTooLarge { length: item.payload@.len() as usize },
            ) && buffer_bytes(*final(dst)) == buffer_bytes(*old(dst)),
            item.payload@.len() + 1 <= old(self).max_frame_len ==> r is Ok && buffer_bytes(*final(dst))
                == buffer_bytes(*old(dst)) + frame_bytes(item.tag, item.payload@),
    {
        let len = item.payload.len();
        if len >= self.max_frame_len as usize {
            return Err(ProtocolError::PayloadTooLarge { length: len });
        }
        let mut head: Vec<u8> = Vec::new();
        crate::wire::push_be_u32(&mut head, (len + 1) as u32);
        head.push(item.tag.to_u8());
        dst.extend_from_slice(head.as_slice());
        dst.extend_from_slice(item.payload.as_slice());
        assert(buffer_bytes(*dst) =~= buffer_bytes(*old(dst)) + frame_bytes(item.tag, item.payload@));
        Ok(())
    }
}

} // verus!
