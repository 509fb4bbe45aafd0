use bittorrent::bencode::{decode, encode, BencodeValue, Dict};

fn bytes(b: &[u8]) -> BencodeValue {
    BencodeValue::ByteString(b.to_vec())
}

fn as_bytes(v: &BencodeValue) -> Vec<u8> {
    match v {
        BencodeValue::ByteString(b) => b.clone(),
        _ => panic!("not a byte string"),
    }
}

#[test]
fn decode_byte_string() {
    let (v, rest) = decode(b"4:spam").unwrap();
    assert_eq!(as_bytes(&v), b"spam".to_vec());
    assert!(rest.is_empty());
}

#[test]
fn decode_negative_integer() {
    let (v, _) = decode(b"i-13e").unwrap();
    assert!(matches!(v, BencodeValue::Integer(-13)));
}

#[test]
fn decode_list_of_strings() {
    let (v, _) = decode(b"l4:spam4:eggse").unwrap();
    match v {
        BencodeValue::List(items) => {
            assert_eq!(items.len(), 2);
            assert_eq!(as_bytes(&items[0]), b"spam".to_vec());
            assert_eq!(as_bytes(&items[1]), b"eggs".to_vec());
        }
        _ => panic!("not a list"),
    }
}

#[test]
fn decode_dictionary() {
    let (v, _) = decode(b"d3:cow3:moo4:spam4:eggse").unwrap();
    match &v {
        BencodeValue::Dictionary(d) => {
            assert_eq!(d.len(), 2);
            assert_eq!(as_bytes(d.get(b"cow").unwrap()), b"moo".to_vec());
            assert_eq!(as_bytes(d.get(b"spam").unwrap()), b"eggs".to_vec());
            assert!(d.get(b"moo").is_none());
        }
        _ => panic!("not a dictionary"),
    }
}

#[test]
fn decode_keeps_trailing_bytes() {
    let (v, rest) = decode(b"i42eXYZ").unwrap();
    assert!(matches!(v, BencodeValue::Integer(42)));
    assert_eq!(rest, b"XYZ".to_vec());
}

#[test]
fn decode_integer_extremes() {
    let (v, _) = decode(b"i9223372036854775807e").unwrap();
    assert!(matches!(v, BencodeValue::Integer(i64::MAX)));
    let (v, _) = decode(b"i-9223372036854775808e").unwrap();
    assert!(matches!(v, BencodeValue::Integer(i64::MIN)));
    assert!(decode(b"i9223372036854775808e").is_err());
    assert!(decode(b"i-9223372036854775809e").is_err());
    assert!(decode(b"i99999999999999999999999e").is_err());
}

#[test]
fn decode_errors() {
    assert!(decode(b"").is_err());
    assert!(decode(b"l4:spam").is_err());
    assert!(decode(b"d3:cow3:moo").is_err());
    assert!(decode(b"5:spam").is_err());
    assert!(decode(b"di1e3:fooe").is_err());
    assert!(decode(b"i12").is_err());
    assert!(decode(b"ie").is_err());
    assert!(decode(b"i-e").is_err());
    assert!(decode(b"i1x2e").is_err());
    assert!(decode(b"4spam").is_err());
    assert!(decode(b"x").is_err());
}

#[test]
fn decode_error_offset_points_into_input() {
    let e = decode(b"l4:spam").unwrap_err();
    assert_eq!(e.offset, 7);
}

#[test]
fn nesting_depth_ceiling() {
    let mut deep = vec![b'l'; 64];
    deep.extend(vec![b'e'; 64]);
    assert!(decode(&deep).is_ok());
    let mut too_deep = vec![b'l'; 65];
    too_deep.extend(vec![b'e'; 65]);
    assert!(decode(&too_deep).is_err());
}

#[test]
fn encode_scalars() {
    assert_eq!(encode(&bytes(b"spam")), b"4:spam".to_vec());
    assert_eq!(encode(&bytes(b"")), b"0:".to_vec());
    assert_eq!(encode(&BencodeValue::Integer(0)), b"i0e".to_vec());
    assert_eq!(encode(&BencodeValue::Integer(-13)), b"i-13e".to_vec());
    assert_eq!(encode(&BencodeValue::Integer(i64::MIN)), b"i-9223372036854775808e".to_vec());
}

#[test]
fn dictionary_keys_sorted_whatever_insertion_order() {
    let mut d = Dict::new();
    d.insert(b"spam".to_vec(), bytes(b"eggs"));
    d.insert(b"cow".to_vec(), bytes(b"moo"));
    d.insert(b"b".to_vec(), BencodeValue::Integer(1));
    d.insert(b"ba".to_vec(), BencodeValue::Integer(2));
    assert_eq!(
        encode(&BencodeValue::Dictionary(d)),
        b"d1:bi1e2:bai2e3:cow3:moo4:spam4:eggse".to_vec()
    );
}

#[test]
fn dictionary_insert_replaces() {
    let mut d = Dict::new();
    d.insert(b"k".to_vec(), BencodeValue::Integer(1));
    d.insert(b"k".to_vec(), BencodeValue::Integer(2));
    assert_eq!(d.len(), 1);
    assert_eq!(encode(&BencodeValue::Dictionary(d)), b"d1:ki2ee".to_vec());
}

#[test]
fn decode_unsorted_dictionary_sorts_and_last_key_wins() {
    let (v, _) = decode(b"d4:spami1e3:cowi2e4:spami3ee").unwrap();
    assert_eq!(encode(&v), b"d3:cowi2e4:spami3ee".to_vec());
}

#[test]
fn round_trip_canonical_bytes() {
    let inputs: Vec<&[u8]> = vec![
        b"4:spam",
        b"i-13e",
        b"le",
        b"de",
        b"l4:spam4:eggse",
        b"d3:cow3:moo4:spam4:eggse",
        b"d4:listli1ei2eli3eee4:name5:helloe",
    ];
    for input in inputs {
        let (v, rest) = decode(input).unwrap();
        assert!(rest.is_empty());
        assert_eq!(encode(&v), input.to_vec());
    }
}

#[test]
fn round_trip_constructed_value() {
    let mut inner = Dict::new();
    inner.insert(b"z".to_vec(), BencodeValue::Integer(-7));
    inner.insert(b"a".to_vec(), bytes(&[0, 255, 58]));
    let v = BencodeValue::List(vec![
        BencodeValue::Integer(12345),
        BencodeValue::Dictionary(inner),
        BencodeValue::List(vec![]),
    ]);
    let enc = encode(&v);
    let (back, rest) = decode(&enc).unwrap();
    assert!(rest.is_empty());
    assert_eq!(encode(&back), enc);
    assert_eq!(enc, b"li12345ed1:a3:\x00\xff:1:zi-7eelee".to_vec());
}

#[test]
fn duplicate_copies_value() {
    let (v, _) = decode(b"d1:ali1e2:xyee").unwrap();
    let c = v.duplicate();
    assert_eq!(encode(&c), encode(&v));
}
