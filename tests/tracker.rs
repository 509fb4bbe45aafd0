use bittorrent::tracker::{announce_url, parse_compact_peers, PeerAddress, TrackerError, TrackerRequest, TrackerResponse};

#[test]
fn compact_peers() {
    let blob = [192, 168, 0, 1, 0x1a, 0xe1, 10, 0, 0, 2, 0, 80, 9];
    let peers = parse_compact_peers(&blob);
    assert_eq!(
        peers,
        vec![PeerAddress { ip: [192, 168, 0, 1], port: 6881 }, PeerAddress { ip: [10, 0, 0, 2], port: 80 }]
    );
}

#[test]
fn response_with_peers() {
    let mut b = b"d8:intervali900e5:peers6:".to_vec();
    b.extend_from_slice(&[1, 2, 3, 4, 0, 1]);
    b.push(b'e');
    match TrackerResponse::from_bytes(&b).unwrap() {
        TrackerResponse::Peers { interval, peers } => {
            assert_eq!(interval, 900);
            assert_eq!(peers, vec![PeerAddress { ip: [1, 2, 3, 4], port: 1 }]);
        }
        TrackerResponse::Failure { .. } => panic!("not a failure"),
    }
}

#[test]
fn response_with_failure() {
    match TrackerResponse::from_bytes(b"d14:failure reason6:no way") {
        Err(TrackerError::Decode(_)) => {}
        _ => panic!("unterminated input must not decode"),
    }
    match TrackerResponse::from_bytes(b"d14:failure reason6:no waye").unwrap() {
        TrackerResponse::Failure { failure_reason } => assert_eq!(failure_reason, b"no way".to_vec()),
        TrackerResponse::Peers { .. } => panic!("not a peer list"),
    }
}

#[test]
fn response_malformed() {
    assert_eq!(TrackerResponse::from_bytes(b"d8:intervali900ee").err(), Some(TrackerError::Malformed));
    assert_eq!(TrackerResponse::from_bytes(b"i1e").err(), Some(TrackerError::Malformed));
    assert_eq!(TrackerResponse::from_bytes(b"d8:intervali-1e5:peers0:e").err(), Some(TrackerError::Malformed));
}

#[test]
fn first_announce_request() {
    let r = TrackerRequest::new("00112233445566778899".to_string(), 6881, 1000);
    assert_eq!(r.port, 6881);
    assert_eq!((r.uploaded, r.downloaded, r.left, r.compact), (0, 0, 1000, 1));
    assert_eq!(r.peer_id, "00112233445566778899");
}

#[test]
fn announce_url_percent_encodes_hash() {
    let mut hash = [0u8; 20];
    hash[0] = b'A';
    hash[1] = b'~';
    hash[2] = 0xab;
    hash[3] = b' ';
    let url = announce_url(b"http://t.test/announce", &hash, b"port=6881&compact=1");
    let mut expected = b"http://t.test/announce?info_hash=A~%AB%20".to_vec();
    for _ in 0..16 {
        expected.extend_from_slice(b"%00");
    }
    expected.extend_from_slice(b"&port=6881&compact=1");
    assert_eq!(String::from_utf8(url).unwrap(), String::from_utf8(expected).unwrap());
}
