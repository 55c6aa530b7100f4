use bittorrent_client::bencode::{decode, encode, encode_into, value_span, BDict, BError, BValue};

fn dict(pairs: Vec<(&str, BValue)>) -> BValue {
    let mut map = BDict::new();
    for (k, v) in pairs {
        map.insert(k.as_bytes().to_vec(), v);
    }
    BValue::Dict(map)
}

#[test]
fn decodes_integers() {
    assert_eq!(decode(b"i42e").unwrap(), BValue::Int(42));
    assert_eq!(decode(b"i-7e").unwrap(), BValue::Int(-7));
    assert_eq!(decode(b"i0e").unwrap(), BValue::Int(0));
}

#[test]
fn decodes_byte_strings() {
    assert_eq!(decode(b"4:spam").unwrap(), BValue::Bytes(b"spam".to_vec()));
    assert_eq!(decode(b"0:").unwrap(), BValue::Bytes(vec![]));
}

#[test]
fn decodes_binary_safe_strings() {
    let raw: Vec<u8> = vec![0xff, 0x00, 0x10, 0xAB, 0x00];
    let mut input = format!("{}:", raw.len()).into_bytes();
    input.extend_from_slice(&raw);
    assert_eq!(decode(&input).unwrap(), BValue::Bytes(raw));
}

#[test]
fn decodes_lists() {
    assert_eq!(
        decode(b"l4:spam4:eggse").unwrap(),
        BValue::List(vec![BValue::Bytes(b"spam".to_vec()), BValue::Bytes(b"eggs".to_vec())])
    );
}

#[test]
fn decodes_nested_dicts() {
    let parsed = decode(b"d3:cow3:moo4:spaml1:a1:bee").unwrap();
    let expected = dict(vec![
        ("cow", BValue::Bytes(b"moo".to_vec())),
        ("spam", BValue::List(vec![BValue::Bytes(b"a".to_vec()), BValue::Bytes(b"b".to_vec())])),
    ]);
    assert_eq!(parsed, expected);
}

#[test]
fn round_trips_through_encode() {
    let samples: Vec<&[u8]> = vec![
        b"i42e",
        b"4:spam",
        b"l4:spam4:eggse",
        b"d3:cow3:moo4:spam4:eggse",
    ];
    for s in samples {
        let decoded = decode(s).unwrap();
        let re_encoded = encode(&decoded);
        assert_eq!(re_encoded, s, "round-trip mismatch for {:?}", s);
    }
}

#[test]
fn rejects_trailing_data() {
    assert!(matches!(decode(b"i1eGARBAGE"), Err(BError::TrailingData)));
}

#[test]
fn rejects_truncated_input() {
    assert!(matches!(decode(b"i42"), Err(BError::UnexpectedEof)));
    assert!(matches!(decode(b"4:sp"), Err(BError::UnexpectedEof)));
}

#[test]
fn integers_are_read_as_rust_reads_them() {
    assert_eq!(decode(b"i+5e"), Ok(BValue::Int(5)));
    assert_eq!(decode(b"i007e"), Ok(BValue::Int(7)));
    assert_eq!(decode(b"i-0e"), Ok(BValue::Int(0)));
    assert_eq!(decode(b"i9223372036854775807e"), Ok(BValue::Int(i64::MAX)));
    assert_eq!(decode(b"i-9223372036854775808e"), Ok(BValue::Int(i64::MIN)));
    for wrong in [&b"ie"[..], b"i-e", b"i+e", b"i1x2e", b"i--1e", b"i 1e", b"i9223372036854775808e"] {
        assert_eq!(decode(wrong), Err(BError::InvalidInteger), "{:?}", wrong);
    }
}

#[test]
fn string_lengths_are_checked() {
    assert_eq!(decode(b"1x:a"), Err(BError::InvalidStringLength));
    assert_eq!(decode(b"99999999999999999999999999:a"), Err(BError::InvalidStringLength));
    assert_eq!(decode(b"12"), Err(BError::UnexpectedEof));
    assert_eq!(decode(b"5000000000:a"), Err(BError::UnexpectedEof));
    assert_eq!(decode(b"18446744073709551615:a"), Err(BError::InvalidStringLength));
}

#[test]
fn other_bytes_start_no_value() {
    assert_eq!(decode(b"x"), Err(BError::UnexpectedToken(b'x')));
    assert_eq!(decode(b"-1:"), Err(BError::UnexpectedToken(b'-')));
    assert_eq!(decode(b""), Err(BError::UnexpectedEof));
    assert_eq!(decode(b"l"), Err(BError::UnexpectedEof));
    assert_eq!(decode(b"d1:a"), Err(BError::UnexpectedEof));
}

#[test]
fn dictionaries_are_kept_in_the_order_of_their_keys() {
    let value = decode(b"d1:bi2e1:ai1e2:aai3ee").unwrap();
    assert_eq!(encode(&value), b"d1:ai1e2:aai3e1:bi2ee");
    assert_eq!(decode(&encode(&value)), Ok(value));
}

#[test]
fn keys_are_read_as_strings_whatever_they_start_with() {
    assert_eq!(decode(b"di1ei2ee"), Err(BError::UnexpectedEof));
    assert_eq!(decode(b"di1e1:xe"), Err(BError::InvalidStringLength));
    assert_eq!(decode(b"d+1:ai2ee"), decode(b"d1:ai2ee"));
}

#[test]
fn the_last_of_equal_keys_stays() {
    let value = decode(b"d1:ai1e1:ai2ee").unwrap();
    assert_eq!(value.get("a"), Some(&BValue::Int(2)));
    assert_eq!(encode(&value), b"d1:ai2ee");
}

#[test]
fn dictionaries_find_and_replace() {
    let mut map = BDict::new();
    assert_eq!(map.len(), 0);
    assert_eq!(map.insert(b"k".to_vec(), BValue::Int(1)), None);
    assert_eq!(map.insert(b"k".to_vec(), BValue::Int(2)), Some(BValue::Int(1)));
    assert_eq!(map.insert(b"a".to_vec(), BValue::Int(3)), None);
    assert_eq!(map.len(), 2);
    assert_eq!(map.get(b"k"), Some(&BValue::Int(2)));
    assert_eq!(map.get(b"a"), Some(&BValue::Int(3)));
    assert_eq!(map.get(b"z"), None);
}

#[test]
fn dictionaries_can_be_walked_in_the_order_of_their_keys() {
    let value = decode(b"d1:bi2e0:i0e1:ai1ee").unwrap();
    let map = value.as_dict().unwrap();
    assert_eq!(map.entry(0), Some((&b""[..], &BValue::Int(0))));
    assert_eq!(map.entry(1), Some((&b"a"[..], &BValue::Int(1))));
    assert_eq!(map.entry(2), Some((&b"b"[..], &BValue::Int(2))));
    assert_eq!(map.entry(3), None);
}

#[test]
fn spans_show_where_values_stand() {
    let whole = b"d1:bi2e0:i0e1:bl1:xee";
    let (from, to) = value_span(whole, b"b").unwrap();
    assert_eq!(&whole[from..to], b"l1:xe");
    let (from, to) = value_span(whole, b"").unwrap();
    assert_eq!(&whole[from..to], b"i0e");
    assert_eq!(value_span(whole, b"x"), None);
    assert_eq!(value_span(b"l1:bi2ee", b"b"), None);
    assert_eq!(value_span(b"", b"b"), None);
}

#[test]
fn encodings_are_appended() {
    let mut out = b"front".to_vec();
    encode_into(&decode(b"l1:ai-1ee").unwrap(), &mut out);
    assert_eq!(out, b"frontl1:ai-1ee");
}

#[test]
fn values_inside_values_decode_alone() {
    let whole = b"d1:al3:xyzi7ee1:bi2ee";
    let value = decode(whole).unwrap();
    assert_eq!(decode(&whole[4..14]).as_ref(), Ok(value.get("a").unwrap()));
    assert_eq!(decode(&whole[17..20]).as_ref(), Ok(value.get("b").unwrap()));
}

#[test]
fn values_are_what_they_are() {
    let value = dict(vec![
        ("number", BValue::Int(-3)),
        ("text", BValue::Bytes("h\u{e9}".as_bytes().to_vec())),
        ("raw", BValue::Bytes(vec![0xff])),
        ("list", BValue::List(vec![BValue::Int(1)])),
    ]);
    assert_eq!(value.get("number").and_then(|v| v.as_int()), Some(-3));
    assert_eq!(value.get("text").and_then(|v| v.as_str()), Some("h\u{e9}"));
    assert_eq!(value.get("text").and_then(|v| v.as_bytes()), Some("h\u{e9}".as_bytes()));
    assert_eq!(value.get("raw").and_then(|v| v.as_str()), None);
    assert_eq!(value.get("list").and_then(|v| v.as_list()), Some(&[BValue::Int(1)][..]));
    assert_eq!(value.as_dict().map(|d| d.len()), Some(4));
    assert_eq!(value.as_int(), None);
    assert_eq!(BValue::Int(1).get("number"), None);
    assert_eq!(BValue::Int(1).as_bytes(), None);
    assert_eq!(BValue::Int(1).as_list(), None);
    assert_eq!(BValue::Int(1).as_dict(), None);
    assert_eq!(value.clone(), value);
}

#[test]
fn every_strict_prefix_is_rejected() {
    let whole = b"d4:listli-12e3:abce1:zd0:0:ee";
    assert!(decode(whole).is_ok());
    for n in 0..whole.len() {
        assert!(decode(&whole[..n]).is_err(), "{}", n);
    }
}

#[test]
fn decoding_errors_say_what_is_wrong() {
    assert_eq!(BError::UnexpectedEof.message(), "unexpected end of input");
    assert_eq!(BError::InvalidInteger.message(), "invalid integer literal");
    assert_eq!(BError::InvalidStringLength.message(), "invalid byte-string length prefix");
    assert_eq!(BError::UnexpectedToken(b'x').message(), "unexpected byte: 'x'");
    assert_eq!(BError::UnexpectedToken(b'\'').message(), "unexpected byte: '\\''");
    assert_eq!(BError::UnexpectedToken(b'\n').message(), "unexpected byte: '\\n'");
    assert_eq!(BError::UnexpectedToken(0xe9).message(), "unexpected byte: '\u{e9}'");
    assert_eq!(BError::TrailingData.message(), "trailing data after top-level value");
}
