use bittorrent::bencode::{decode, encode, BencodeValue, Dict};
use bittorrent::metainfo::{piece_count, piece_size, Hashes, Info, MetainfoError, Torrent, TorrentError};
use sha1::{Digest, Sha1};

fn info_bytes(length: i64, piece_length: i64, pieces: &[u8]) -> Vec<u8> {
    let mut b = Vec::new();
    b.extend_from_slice(format!("d6:lengthi{}e4:name8:file.txt12:piece lengthi{}e6:pieces{}:", length, piece_length, pieces.len()).as_bytes());
    b.extend_from_slice(pieces);
    b.push(b'e');
    b
}

fn torrent_bytes(info: &[u8]) -> Vec<u8> {
    let mut b = b"d8:announce23:http://tracker.test/ann4:info".to_vec();
    b.extend_from_slice(info);
    b.push(b'e');
    b
}

fn sha1(data: &[u8]) -> [u8; 20] {
    Sha1::digest(data).into()
}

#[test]
fn reads_torrent_fields() {
    let pieces: Vec<u8> = (0..40u8).collect();
    let info = info_bytes(40000, 32768, &pieces);
    let t = Torrent::from_bytes(&torrent_bytes(&info)).unwrap();
    assert_eq!(t.announce, b"http://tracker.test/ann".to_vec());
    assert_eq!(t.info.length, 40000);
    assert_eq!(t.info.piece_length, 32768);
    assert_eq!(t.info.name, b"file.txt".to_vec());
    assert_eq!(t.info.piece_count(), 2);
    assert_eq!(t.info.pieces.data[1].to_vec(), (20..40u8).collect::<Vec<u8>>());
    assert_eq!(t.info.pieces.to_bytes(), pieces);
}

#[test]
fn content_hash_is_sha1_of_info_bytes() {
    let pieces = [0xabu8; 20];
    let info = info_bytes(10, 16, &pieces);
    let t = Torrent::from_bytes(&torrent_bytes(&info)).unwrap();
    assert_eq!(t.info.calc_hash(), sha1(&info));
}

#[test]
fn content_hash_known_value() {
    let (v, _) = decode(b"d6:lengthi1e4:name1:a12:piece lengthi1e6:pieces20:aaaaaaaaaaaaaaaaaaaae").unwrap();
    let info = Info::from_value(v).unwrap();
    let expected = sha1(b"d6:lengthi1e4:name1:a12:piece lengthi1e6:pieces20:aaaaaaaaaaaaaaaaaaaae");
    assert_eq!(info.calc_hash(), expected);
    assert_ne!(info.calc_hash().to_vec(), b"d6:lengthi1e4:name1:a".to_vec());
}

#[test]
fn content_hash_ignores_key_insertion_order() {
    let build = |order: &[usize]| {
        let entries: Vec<(Vec<u8>, BencodeValue)> = vec![
            (b"length".to_vec(), BencodeValue::Integer(5)),
            (b"name".to_vec(), BencodeValue::ByteString(b"x".to_vec())),
            (b"piece length".to_vec(), BencodeValue::Integer(4)),
            (b"pieces".to_vec(), BencodeValue::ByteString(vec![1u8; 40])),
        ];
        let mut d = Dict::new();
        for &i in order {
            let (k, v) = &entries[i];
            d.insert(k.clone(), v.duplicate());
        }
        Info::from_value(BencodeValue::Dictionary(d)).unwrap()
    };
    let a = build(&[0, 1, 2, 3]);
    let b = build(&[3, 1, 0, 2]);
    assert_eq!(a.calc_hash(), b.calc_hash());
    assert_eq!(encode(&a.value), encode(&b.value));
}

#[test]
fn hash_shape_error() {
    let info = info_bytes(10, 16, &[0u8; 19]);
    let (v, _) = decode(&info).unwrap();
    assert_eq!(Info::from_value(v).err(), Some(MetainfoError::HashShape));
    assert_eq!(Hashes::from_bytes(&[0u8; 21]).err(), Some(MetainfoError::HashShape));
}

#[test]
fn piece_count_mismatch() {
    let info = info_bytes(40, 16, &[0u8; 40]);
    let (v, _) = decode(&info).unwrap();
    assert_eq!(Info::from_value(v).err(), Some(MetainfoError::PieceCount));
}

#[test]
fn missing_or_mistyped_keys() {
    let (v, _) = decode(b"d6:lengthi10e12:piece lengthi16e6:pieces0:e").unwrap();
    assert_eq!(Info::from_value(v).err(), Some(MetainfoError::Malformed));
    let (v, _) = decode(b"d6:length2:104:name1:a12:piece lengthi16e6:pieces20:aaaaaaaaaaaaaaaaaaaae").unwrap();
    assert_eq!(Info::from_value(v).err(), Some(MetainfoError::Malformed));
    let (v, _) = decode(b"d6:lengthi10e4:name1:a12:piece lengthi0e6:pieces20:aaaaaaaaaaaaaaaaaaaae").unwrap();
    assert_eq!(Info::from_value(v).err(), Some(MetainfoError::Malformed));
    let (v, _) = decode(b"li1ee").unwrap();
    assert_eq!(Info::from_value(v).err(), Some(MetainfoError::Malformed));
}

#[test]
fn torrent_errors() {
    assert!(matches!(Torrent::from_bytes(b"d8:announce"), Err(TorrentError::Decode(_))));
    assert_eq!(Torrent::from_bytes(b"d4:infodee").err(), Some(TorrentError::Malformed));
    assert_eq!(Torrent::from_bytes(b"d8:announce1:a4:infoi1ee").err(), Some(TorrentError::Malformed));
    let bad_info = info_bytes(10, 16, &[0u8; 19]);
    assert_eq!(
        Torrent::from_bytes(&torrent_bytes(&bad_info)).err(),
        Some(TorrentError::Info(MetainfoError::HashShape))
    );
}

#[test]
fn piece_sizing_exact_multiple() {
    assert_eq!(piece_count(1048576, 262144), 4);
    for i in 0..4 {
        assert_eq!(piece_size(1048576, 262144, i), 262144);
    }
}

#[test]
fn piece_sizing_with_remainder() {
    assert_eq!(piece_count(1048577, 262144), 5);
    for i in 0..4 {
        assert_eq!(piece_size(1048577, 262144, i), 262144);
    }
    assert_eq!(piece_size(1048577, 262144, 4), 1);
}

#[test]
fn info_piece_size_of_last_piece() {
    let info = info_bytes(1048577, 262144, &[3u8; 100]);
    let (v, _) = decode(&info).unwrap();
    let info = Info::from_value(v).unwrap();
    assert_eq!(info.piece_count(), 5);
    assert_eq!(info.piece_size(0), 262144);
    assert_eq!(info.piece_size(4), 1);
}

#[test]
fn empty_content_has_no_pieces() {
    assert_eq!(piece_count(0, 16), 0);
    let info = info_bytes(0, 16, &[]);
    let (v, _) = decode(&info).unwrap();
    assert_eq!(Info::from_value(v).unwrap().piece_count(), 0);
}
