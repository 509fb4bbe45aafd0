use bittorrent::download::{DownloadError, Phase, PieceDownload, Step, BLOCK_SIZE};
use bittorrent::message::{Message, MessageTag};
use sha1::{Digest, Sha1};

fn digest_of(data: &[u8]) -> [u8; 20] {
    Sha1::digest(data).into()
}

fn content(len: usize) -> Vec<u8> {
    (0..len).map(|i| (i * 7 % 251) as u8).collect()
}

fn sent(step: Step) -> Vec<Message> {
    match step {
        Step::Send(v) => v,
        Step::Complete(_) => panic!("completed early"),
    }
}

/// Answers a request with the matching block of `data`.
fn answer(data: &[u8], m: &Message) -> Message {
    match m {
        Message::Request { index, begin, length } => Message::Piece {
            index: *index,
            begin: *begin,
            block: data[*begin as usize..(*begin + *length) as usize].to_vec(),
        },
        _ => panic!("expected a request"),
    }
}

fn start(d: &mut PieceDownload) -> Vec<Message> {
    let out = sent(d.on_message(Message::Bitfield(vec![0xff])).unwrap());
    assert_eq!(out.len(), 1);
    assert!(matches!(out[0], Message::Interested));
    assert_eq!(d.phase(), Phase::AwaitUnchoke);
    let reqs = sent(d.on_message(Message::Unchoke).unwrap());
    assert_eq!(d.phase(), Phase::RequestingBlocks);
    reqs
}

#[test]
fn end_to_end_download_one_request_at_a_time() {
    let data = content(40000);
    let expected = digest_of(&data);
    let mut d = PieceDownload::new(3, 40000, BLOCK_SIZE, 1, expected);
    let mut pending = start(&mut d);
    let mut seen = Vec::new();
    let result = loop {
        assert_eq!(pending.len(), 1);
        let req = pending.pop().unwrap();
        if let Message::Request { index, begin, length } = req {
            seen.push((index, begin, length));
        }
        match d.on_message(answer(&data, &req)).unwrap() {
            Step::Send(v) => pending = v,
            Step::Complete(bytes) => break bytes,
        }
    };
    assert_eq!(seen, vec![(3, 0, 16384), (3, 16384, 16384), (3, 32768, 7232)]);
    assert_eq!(digest_of(&result), expected);
    assert_eq!(result, data);
    assert_eq!(d.phase(), Phase::Done);
    assert!(matches!(d.on_message(Message::Unchoke), Err(DownloadError::Finished)));
}

#[test]
fn end_to_end_known_digest() {
    let data = b"abc".to_vec();
    let expected: [u8; 20] = [
        0xa9, 0x99, 0x3e, 0x36, 0x47, 0x06, 0x81, 0x6a, 0xba, 0x3e, 0x25, 0x71, 0x78, 0x50, 0xc2, 0x6c, 0x9c, 0xd0,
        0xd8, 0x9d,
    ];
    let mut d = PieceDownload::new(0, 3, BLOCK_SIZE, 5, expected);
    let reqs = start(&mut d);
    assert_eq!(reqs.len(), 1);
    match d.on_message(answer(&data, &reqs[0])).unwrap() {
        Step::Complete(bytes) => assert_eq!(bytes, data),
        Step::Send(_) => panic!("not complete"),
    }
}

#[test]
fn out_of_order_blocks_assemble_in_order() {
    let data = content(5 * 16384 + 100);
    let expected = digest_of(&data);
    let mut d = PieceDownload::new(0, data.len() as u32, BLOCK_SIZE, 6, expected);
    let reqs = start(&mut d);
    assert_eq!(reqs.len(), 6);
    let mut result = None;
    for req in reqs.iter().rev() {
        match d.on_message(answer(&data, req)).unwrap() {
            Step::Send(v) => assert!(v.is_empty()),
            Step::Complete(bytes) => result = Some(bytes),
        }
    }
    assert_eq!(result.unwrap(), data);
}

#[test]
fn pipelined_requests_refill_window() {
    let data = content(4 * 16384);
    let mut d = PieceDownload::new(1, data.len() as u32, BLOCK_SIZE, 2, digest_of(&data));
    let reqs = start(&mut d);
    assert_eq!(reqs.len(), 2);
    let next = sent(d.on_message(answer(&data, &reqs[1])).unwrap());
    assert!(matches!(next[0], Message::Request { index: 1, begin: 32768, length: 16384 }));
}

#[test]
fn flipped_byte_fails_verification() {
    let data = content(2 * 16384);
    let expected = digest_of(&data);
    let mut d = PieceDownload::new(0, data.len() as u32, BLOCK_SIZE, 2, expected);
    let reqs = start(&mut d);
    d.on_message(answer(&data, &reqs[0])).unwrap();
    let mut corrupt = data.clone();
    corrupt[16384 + 5] ^= 1;
    let r = d.on_message(answer(&corrupt, &reqs[1]));
    assert!(matches!(r, Err(DownloadError::Verification)));
    assert_eq!(d.phase(), Phase::Failed);
}

#[test]
fn first_message_must_be_bitfield() {
    let mut d = PieceDownload::new(0, 10, BLOCK_SIZE, 1, [0; 20]);
    let r = d.on_message(Message::Unchoke);
    assert!(matches!(r, Err(DownloadError::Unexpected { expected: MessageTag::Bitfield, got: MessageTag::Unchoke })));
    assert_eq!(d.phase(), Phase::Failed);
    assert!(matches!(d.on_message(Message::Bitfield(vec![1])), Err(DownloadError::Finished)));
}

#[test]
fn unchoke_must_follow_bitfield() {
    let mut d = PieceDownload::new(0, 10, BLOCK_SIZE, 1, [0; 20]);
    d.on_message(Message::Bitfield(vec![1])).unwrap();
    let r = d.on_message(Message::Have { index: 0 });
    assert!(matches!(r, Err(DownloadError::Unexpected { expected: MessageTag::Unchoke, got: MessageTag::Have })));
}

#[test]
fn block_checks() {
    let data = content(3 * 16384);
    let fresh = || {
        let mut d = PieceDownload::new(2, data.len() as u32, BLOCK_SIZE, 2, digest_of(&data));
        start(&mut d);
        d
    };
    let mut d = fresh();
    let r = d.on_message(Message::Piece { index: 1, begin: 0, block: vec![0; 16384] });
    assert!(matches!(r, Err(DownloadError::WrongPiece { index: 1 })));
    let mut d = fresh();
    let r = d.on_message(Message::Piece { index: 2, begin: 100, block: vec![0; 16384] });
    assert!(matches!(r, Err(DownloadError::MisalignedBlock { begin: 100 })));
    let mut d = fresh();
    let r = d.on_message(Message::Piece { index: 2, begin: 32768, block: vec![0; 16384] });
    assert!(matches!(r, Err(DownloadError::UnrequestedBlock { begin: 32768 })));
    let mut d = fresh();
    let r = d.on_message(Message::Piece { index: 2, begin: 0, block: vec![0; 100] });
    assert!(matches!(r, Err(DownloadError::BadBlockLength { begin: 0, length: 100 })));
    let mut d = fresh();
    d.on_message(Message::Piece { index: 2, begin: 0, block: data[..16384].to_vec() }).unwrap();
    let r = d.on_message(Message::Piece { index: 2, begin: 0, block: data[..16384].to_vec() });
    assert!(matches!(r, Err(DownloadError::UnrequestedBlock { begin: 0 })));
    let mut d = fresh();
    let r = d.on_message(Message::Choke);
    assert!(matches!(r, Err(DownloadError::Unexpected { expected: MessageTag::Piece, got: MessageTag::Choke })));
}
