use bittorrent::handshake::{Handshake, HandshakeError};

fn sample() -> Handshake {
    Handshake::new([7u8; 20], *b"00112233445566778899")
}

#[test]
fn new_fills_fixed_fields() {
    let h = sample();
    assert_eq!(h.protocol_len, 19);
    assert_eq!(&h.protocol_string, b"BitTorrent protocol");
    assert_eq!(h.reserved, [0u8; 8]);
    assert_eq!(h.info_hash, [7u8; 20]);
    assert_eq!(&h.peer_id, b"00112233445566778899");
}

#[test]
fn to_bytes_layout() {
    let b = sample().to_bytes();
    assert_eq!(b.len(), 68);
    assert_eq!(b[0], 19);
    assert_eq!(&b[1..20], b"BitTorrent protocol");
    assert_eq!(&b[20..28], &[0u8; 8]);
    assert_eq!(&b[28..48], &[7u8; 20]);
    assert_eq!(&b[48..68], b"00112233445566778899");
}

#[test]
fn from_bytes_then_to_bytes_is_identity() {
    let b: Vec<u8> = (0..68u8).collect();
    let h = Handshake::from_bytes(&b).unwrap();
    assert_eq!(h.to_bytes(), b);
    assert_eq!(h.protocol_len, 0);
    assert_eq!(h.peer_id[0], 48);
}

#[test]
fn from_bytes_rejects_other_lengths() {
    assert!(Handshake::from_bytes(&[0u8; 67]).is_none());
    assert!(Handshake::from_bytes(&[0u8; 69]).is_none());
    assert!(Handshake::from_bytes(&[]).is_none());
}

#[test]
fn check_reply_accepts_same_hash() {
    let mine = sample();
    let theirs = Handshake::new([7u8; 20], [9u8; 20]).to_bytes();
    assert_eq!(mine.check_reply(&theirs), Ok([9u8; 20]));
}

#[test]
fn check_reply_rejects_other_hash() {
    let mine = sample();
    let mut other = [7u8; 20];
    other[19] = 8;
    let theirs = Handshake::new(other, [9u8; 20]).to_bytes();
    assert_eq!(mine.check_reply(&theirs), Err(HandshakeError::InfoHashMismatch));
    assert_eq!(mine.check_reply(&theirs[..67]), Err(HandshakeError::WrongLength));
}
