use bittorrent::framer::MessageFramer;
use bittorrent::message::{Message, MessageTag, ProtocolError, RawMessage};
use bytes::BytesMut;

fn frame(tag: u8, payload: &[u8]) -> Vec<u8> {
    let mut v = ((payload.len() + 1) as u32).to_be_bytes().to_vec();
    v.push(tag);
    v.extend_from_slice(payload);
    v
}

#[test]
fn encode_writes_length_tag_payload() {
    let mut f = MessageFramer::new();
    let mut dst = BytesMut::new();
    f.encode(RawMessage { tag: MessageTag::Have, payload: vec![0, 0, 1, 2] }, &mut dst).unwrap();
    assert_eq!(dst.to_vec(), vec![0, 0, 0, 5, 4, 0, 0, 1, 2]);
    f.encode(RawMessage { tag: MessageTag::Interested, payload: vec![] }, &mut dst).unwrap();
    assert_eq!(dst.to_vec(), vec![0, 0, 0, 5, 4, 0, 0, 1, 2, 0, 0, 0, 1, 2]);
}

#[test]
fn encode_refuses_oversized_payload() {
    let mut f = MessageFramer::new();
    let mut dst = BytesMut::from(&b"ab"[..]);
    let r = f.encode(RawMessage { tag: MessageTag::Piece, payload: vec![0; 32768] }, &mut dst);
    assert_eq!(r, Err(ProtocolError::PayloadTooLarge { length: 32768 }));
    assert_eq!(dst.to_vec(), b"ab".to_vec());
    let r = f.encode(RawMessage { tag: MessageTag::Piece, payload: vec![0; 32767] }, &mut dst);
    assert!(r.is_ok());
    assert_eq!(dst.len(), 2 + 4 + 32768);
}

#[test]
fn decode_waits_for_whole_frame_byte_by_byte() {
    let bytes = frame(7, &[0, 0, 0, 1, 0, 0, 0, 2, 9, 9, 9]);
    let mut f = MessageFramer::new();
    let mut buf = BytesMut::new();
    for (i, b) in bytes.iter().enumerate() {
        buf.extend_from_slice(&[*b]);
        let r = f.decode(&mut buf).unwrap();
        if i + 1 < bytes.len() {
            assert!(r.is_none());
            assert_eq!(buf.len(), i + 1);
        } else {
            let m = r.unwrap();
            assert_eq!(m.tag, MessageTag::Piece);
            assert_eq!(m.payload, vec![0, 0, 0, 1, 0, 0, 0, 2, 9, 9, 9]);
            assert!(buf.is_empty());
        }
    }
}

#[test]
fn decode_leaves_next_frame_untouched() {
    let mut all = frame(1, &[]);
    let second = frame(4, &[0, 0, 0, 3]);
    all.extend_from_slice(&second[..6]);
    let mut buf = BytesMut::from(&all[..]);
    let mut f = MessageFramer::new();
    let m = f.decode(&mut buf).unwrap().unwrap();
    assert_eq!(m.tag, MessageTag::Unchoke);
    assert!(m.payload.is_empty());
    assert_eq!(buf.to_vec(), second[..6].to_vec());
    assert!(f.decode(&mut buf).unwrap().is_none());
    buf.extend_from_slice(&second[6..]);
    let m = f.decode(&mut buf).unwrap().unwrap();
    assert_eq!(m.tag, MessageTag::Have);
    assert_eq!(m.payload, vec![0, 0, 0, 3]);
    assert!(buf.is_empty());
}

#[test]
fn decode_refuses_oversized_frame() {
    let mut buf = BytesMut::from(&[0u8, 0, 0x80, 1][..]);
    let mut f = MessageFramer::new();
    assert_eq!(f.decode(&mut buf).err(), Some(ProtocolError::FrameTooLarge { length: 32769 }));
    assert_eq!(buf.len(), 4);
    let mut ok = BytesMut::from(&[0u8, 0, 0x80, 0][..]);
    assert!(f.decode(&mut ok).unwrap().is_none());
}

#[test]
fn decode_refuses_unknown_tag_and_empty_frame() {
    let mut f = MessageFramer::new();
    let mut buf = BytesMut::from(&frame(9, &[1])[..]);
    assert_eq!(f.decode(&mut buf).err(), Some(ProtocolError::UnknownTag { code: 9 }));
    let mut buf = BytesMut::from(&[0u8, 0, 0, 0][..]);
    assert_eq!(f.decode(&mut buf).err(), Some(ProtocolError::EmptyFrame));
}

#[test]
fn typed_messages_from_raw() {
    let m = Message::try_from_raw(RawMessage { tag: MessageTag::Have, payload: vec![0, 0, 1, 0] }).unwrap();
    assert!(matches!(m, Message::Have { index: 256 }));
    let m = Message::try_from_raw(RawMessage {
        tag: MessageTag::Request,
        payload: vec![0, 0, 0, 1, 0, 0, 0x40, 0, 0, 0, 0x40, 0],
    })
    .unwrap();
    assert!(matches!(m, Message::Request { index: 1, begin: 16384, length: 16384 }));
    let m = Message::try_from_raw(RawMessage { tag: MessageTag::Piece, payload: vec![0, 0, 0, 2, 0, 0, 0, 0, 7, 8] })
        .unwrap();
    match m {
        Message::Piece { index, begin, block } => {
            assert_eq!((index, begin), (2, 0));
            assert_eq!(block, vec![7, 8]);
        }
        _ => panic!("not a piece"),
    }
    let m = Message::try_from_raw(RawMessage { tag: MessageTag::Bitfield, payload: vec![0xf0] }).unwrap();
    assert!(matches!(m, Message::Bitfield(ref b) if b == &vec![0xf0]));
    let m = Message::try_from_raw(RawMessage { tag: MessageTag::Choke, payload: vec![] }).unwrap();
    assert!(matches!(m, Message::Choke));
}

#[test]
fn typed_messages_reject_bad_payloads() {
    let cases: Vec<(MessageTag, usize)> = vec![
        (MessageTag::Choke, 1),
        (MessageTag::Unchoke, 2),
        (MessageTag::Interested, 1),
        (MessageTag::NotInterested, 1),
        (MessageTag::Have, 3),
        (MessageTag::Have, 5),
        (MessageTag::Bitfield, 0),
        (MessageTag::Request, 11),
        (MessageTag::Cancel, 13),
        (MessageTag::Piece, 8),
    ];
    for (tag, len) in cases {
        let r = Message::try_from_raw(RawMessage { tag, payload: vec![0; len] });
        assert_eq!(r.err(), Some(ProtocolError::BadPayload { tag, length: len }));
    }
}

#[test]
fn typed_messages_to_raw() {
    let r = Message::Cancel { index: 1, begin: 2, length: 3 }.into_raw();
    assert_eq!(r.tag, MessageTag::Cancel);
    assert_eq!(r.payload, vec![0, 0, 0, 1, 0, 0, 0, 2, 0, 0, 0, 3]);
    let r = Message::Piece { index: 0x01020304, begin: 5, block: vec![9] }.into_raw();
    assert_eq!(r.tag, MessageTag::Piece);
    assert_eq!(r.payload, vec![1, 2, 3, 4, 0, 0, 0, 5, 9]);
    let r = Message::Interested.into_raw();
    assert_eq!(r.tag, MessageTag::Interested);
    assert!(r.payload.is_empty());
}

#[test]
fn tag_codes() {
    for c in 0u8..=8 {
        assert_eq!(MessageTag::from_u8(c).unwrap().to_u8(), c);
    }
    assert!(MessageTag::from_u8(9).is_none());
    assert_eq!(MessageTag::from_u8(5), Some(MessageTag::Bitfield));
}
