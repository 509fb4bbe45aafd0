//! Peer wire messages: the tag byte, the raw tag-and-payload form, and the
//! typed form in which each kind carries only its own fields.
use vstd::prelude::*;

use crate::wire::{be_u32_bytes, be_u32_value, copy_range, push_all, push_be_u32, read_be_u32};

verus! {

#[derive(Debug, Clone, Copy, PartialEq, Eq, Structural)]
pub enum MessageTag {
    Choke,
    Unchoke,
    Interested,
    NotInterested,
    Have,
    Bitfield,
    Request,
    Piece,
    Cancel,
}

/// The byte that stands for each tag on the wire.
pub open spec fn tag_code(t: MessageTag) -> u8 {
    match t {
        MessageTag::Choke => 0,
        MessageTag::Unchoke => 1,
        MessageTag::Interested => 2,
        MessageTag::NotInterested => 3,
        MessageTag::Have => 4,
        MessageTag::Bitfield => 5,
        MessageTag::Request => 6,
        MessageTag::Piece => 7,
        MessageTag::Cancel => 8,
    }
}

impl MessageTag {
    pub fn to_u8(self) -> (r: u8)
        ensures
            r == tag_code(self),
    {
        match self {
            MessageTag::Choke => 0,
            MessageTag::Unchoke => 1,
            MessageTag::Interested => 2,
            MessageTag::NotInterested => 3,
            MessageTag::Have => 4,
            MessageTag::Bitfield => 5,
            MessageTag::Request => 6,
            MessageTag::Piece => 7,
            MessageTag::Cancel => 8,
        }
    }

    /// The tag with code `c`; `None` for a code above 8.
    pub fn from_u8(c: u8) -> (r: Option<MessageTag>)
        ensures
            c > 8 <==> r is None,
            r matches Some(t) ==> tag_code(t) == c,
    {
        match c {
            0 => Some(MessageTag::Choke),
            1 => Some(MessageTag::Unchoke),
            2 => Some(MessageTag::Interested),
            3 => Some(MessageTag::NotInterested),
            4 => Some(MessageTag::Have),
            5 => Some(MessageTag::Bitfield),
            6 => Some(MessageTag::Request),
            7 => Some(MessageTag::Piece),
            8 => Some(MessageTag::Cancel),
            _ => None,
        }
    }
}

/// A peer broke the wire protocol.
#[derive(Debug, Clone, Copy, PartialEq, Eq, Structural)]
pub enum ProtocolError {
    /// A received frame whose declared length is above the ceiling.
    FrameTooLarge { length: usize },
    /// A payload too long to send within the ceiling.
    PayloadTooLarge { length: usize },
    /// A frame whose declared length is zero, so that it has no tag.
    EmptyFrame,
    /// A tag byte above 8.
    UnknownTag { code: u8 },
    /// A payload whose length does not suit its tag.
    BadPayload { tag: MessageTag, length: usize },
}

/// A message as it crosses the wire: a tag and its payload bytes.
#[derive(Debug)]
pub struct RawMessage {
    pub tag: MessageTag,
    pub payload: Vec<u8>,
}

#[derive(Debug)]
pub enum Message {
    Choke,
    Unchoke,
    Interested,
    NotInterested,
    /// The index of a piece that the sender has completed and checked.
    Have { index: u32 },
    /// Bit `i`, most significant bit first within each byte, is set when the
    /// sender has piece `i`.
    Bitfield(Vec<u8>),
    /// Asks for `length` bytes at offset `begin` of piece `index`.
    Request { index: u32, begin: u32, length: u32 },
    /// The bytes at offset `begin` of piece `index`.
    Piece { index: u32, begin: u32, block: Vec<u8> },
    /// Withdraws a request.
    Cancel { index: u32, begin: u32, length: u32 },
}

/// Whether a payload of `len` bytes suits `tag`.
pub open spec fn payload_fits(tag: MessageTag, len: int) -> bool {
    match tag {
        MessageTag::Choke | MessageTag::Unchoke | MessageTag::Interested | MessageTag::NotInterested => len
            == 0,
        MessageTag::Have => len == 4,
        MessageTag::Bitfield => len > 0,
        MessageTag::Request | MessageTag::Cancel => len == 12,
        MessageTag::Piece => len >= 9,
    }
}

impl Message {
    pub open spec fn tag(&self) -> MessageTag {
        match self {
            Message::Choke => MessageTag::Choke,
            Message::Unchoke => MessageTag::Unchoke,
            Message::Interested => MessageTag::Interested,
            Message::NotInterested => MessageTag::NotInterested,
            Message::Have { .. } => MessageTag::Have,
            Message::Bitfield(_) => MessageTag::Bitfield,
            Message::Request { .. } => MessageTag::Request,
            Message::Piece { .. } => MessageTag::Piece,
            Message::Cancel { .. } => MessageTag::Cancel,
        }
    }

    /// The payload bytes of this message on the wire.
    pub open spec fn payload(&self) -> Seq<u8> {
        match self {
            Message::Have { index } => be_u32_bytes(*index),
            Message::Bitfield(b) => b@,
            Message::Request { index, begin, length } => be_u32_bytes(*index) + be_u32_bytes(*begin)
                + be_u32_bytes(*length),
            Message::Piece { index, begin, block } => be_u32_bytes(*index) + be_u32_bytes(*begin) + block@,
            Message::Cancel { index, begin, length } => be_u32_bytes(*index) + be_u32_bytes(*begin)
                + be_u32_bytes(*length),
            _ => Seq::empty(),
        }
    }

    /// The kind of this message.
    pub fn kind(&self) -> (r: MessageTag)
        ensures
            r == self.tag(),
    {
        match self {
            Message::Choke => MessageTag::Choke,
            Message::Unchoke => MessageTag::Unchoke,
            Message::Interested => MessageTag::Interested,
            Message::NotInterested => MessageTag::NotInterested,
            Message::Have { .. } => MessageTag::Have,
            Message::Bitfield(_) => MessageTag::Bitfield,
            Message::Request { .. } => MessageTag::Request,
            Message::Piece { .. } => MessageTag::Piece,
            Message::Cancel { .. } => MessageTag::Cancel,
        }
    }

    /// Reads a typed message from its raw form; the payload must suit the tag.
    pub fn try_from_raw(raw: RawMessage) -> (r: Result<Message, ProtocolError>)
        ensures
            !payload_fits(raw.tag, raw.payload@.len() as int) ==> r == Err::<Message, _>(
                ProtocolError::BadPayload { tag: raw.tag, length: raw.payload@.len() as usize },
            ),
            payload_fits(raw.tag, raw.payload@.len() as int) ==> (r matches Ok(m) && m.tag() == raw.tag
                && m.payload() == raw.payload@),
    {
        let len = raw.payload.len();
        let bad = ProtocolError::BadPayload { tag: raw.tag, length: len };
        let p = raw.payload.as_slice();
        match raw.tag {
            MessageTag::Choke | MessageTag::Unchoke | MessageTag::Interested | MessageTag::NotInterested => {
                if len != 0 {
                    return Err(bad);
                }
                assert(raw.payload@ =~= Seq::<u8>::empty());
                Ok(
                    match raw.tag {
                        MessageTag::Choke => Message::Choke,
                        MessageTag::Unchoke => Message::Unchoke,
                        MessageTag::Interested => Message::Interested,
                        _ => Message::NotInterested,
                    },
                )
            },
            MessageTag::Have => {
                if len != 4 {
                    return Err(bad);
                }
                let index = read_be_u32(p, 0);
                proof {
                    crate::wire::lemma_be_u32_bytes_of_value(p@.subrange(0, 4));
                    assert(p@.subrange(0, 4) =~= p@);
                }
                Ok(Message::Have { index })
            },
            MessageTag::Bitfield => {
                if len == 0 {
                    return Err(bad);
                }
                Ok(Message::Bitfield(raw.payload))
            },
            MessageTag::Request | MessageTag::Cancel => {
                if len != 12 {
                    return Err(bad);
                }
                let index = read_be_u32(p, 0);
                let begin = read_be_u32(p, 4);
                let length = read_be_u32(p, 8);
                proof {
                    lemma_three_words(p@);
                }
                if raw.tag == MessageTag::Request {
                    Ok(Message::Request { index, begin, length })
                } else {
                    Ok(Message::Cancel { index, begin, length })
                }
            },
            MessageTag::Piece => {
                if len < 9 {
                    return Err(bad);
                }
                let index = read_be_u32(p, 0);
                let begin = read_be_u32(p, 4);
                let block = copy_range(p, 8, len);
                proof {
                    crate::wire::lemma_be_u32_bytes_of_value(p@.subrange(0, 4));
                    crate::wire::lemma_be_u32_bytes_of_value(p@.subrange(4, 8));
                    assert(p@ =~= p@.subrange(0, 4) + p@.subrange(4, 8) + p@.subrange(8, len as int));
                }
                Ok(Message::Piece { index, begin, block })
            },
        }
    }

    /// The raw form of this message.
    pub fn into_raw(self) -> (r: RawMessage)
        ensures
            r.tag == self.tag(),
            r.payload@ == self.payload(),
            payload_fits(r.tag, r.payload@.len() as int) || (self is Bitfield && r.payload@.len() == 0)
                || (self is Piece && r.payload@.len() == 8),
    {
        let mut payload: Vec<u8> = Vec::new();
        let tag = match self {
            Message::Choke => MessageTag::Choke,
            Message::Unchoke => MessageTag::Unchoke,
            Message::Interested => MessageTag::Interested,
            Message::NotInterested => MessageTag::NotInterested,
            Message::Have { index } => {
                push_be_u32(&mut payload, index);
                MessageTag::Have
            },
            Message::Bitfield(b) => {
                payload = b;
                MessageTag::Bitfield
            },
            Message::Request { index, begin, length } => {
                push_be_u32(&mut payload, index);
                push_be_u32(&mut payload, begin);
                push_be_u32(&mut payload, length);
                MessageTag::Request
            },
            Message::Piece { index, begin, block } => {
                push_be_u32(&mut payload, index);
                push_be_u32(&mut payload, begin);
                push_all(&mut payload, block.as_slice());
                MessageTag::Piece
            },
            Message::Cancel { index, begin, length } => {
                push_be_u32(&mut payload, index);
                push_be_u32(&mut payload, begin);
                push_be_u32(&mut payload, length);
                MessageTag::Cancel
            },
        };
        assert(payload@ =~= self.payload());
        RawMessage { tag, payload }
    }
}

proof fn lemma_three_words(p: Seq<u8>)
    requires
        p.len() == 12,
    ensures
        p == be_u32_bytes(be_u32_value(p.subrange(0, 4))) + be_u32_bytes(be_u32_value(p.subrange(4, 8)))
            + be_u32_bytes(be_u32_value(p.subrange(8, 12))),
{
    crate::wire::lemma_be_u32_bytes_of_value(p.subrange(0, 4));
    crate::wire::lemma_be_u32_bytes_of_value(p.subrange(4, 8));
    crate::wire::lemma_be_u32_bytes_of_value(p.subrange(8, 12));
    assert(p =~= p.subrange(0, 4) + p.subrange(4, 8) + p.subrange(8, 12));
}

} // verus!
