//! Bencode codec behavior: the ported decoder cases, the round-trip
//! laws on concrete values, and the error taxonomy.

use bittorrent::decode::{BencodeError, DecodeContext, decode_bencoded_value};
use bittorrent::encode::{EncodeContext, encode_dictionary, encode_integer, encode_value};
use bittorrent::json::to_json_string;
use bittorrent::value::Bencode;

fn decode_str(text: &str) -> Result<Bencode, BencodeError> {
    let mut ctx = DecodeContext::new(text.as_bytes().to_vec());
    decode_bencoded_value(&mut ctx)
}

fn json_of_str(text: &str) -> String {
    to_json_string(&decode_str(text).unwrap())
}

#[test]
fn test_decode_integer() {
    let v = decode_str("i52e").unwrap();
    assert_eq!(to_json_string(&v), String::from("52"));

    let v2 = decode_str("i-52e").unwrap();
    assert_eq!(to_json_string(&v2), String::from("-52"));

    let v3 = decode_str("i4294967300e").unwrap();
    assert_eq!(to_json_string(&v3), String::from("4294967300"));
}

#[test]
fn test_decode_string() {
    let v = decode_str("5:hello").unwrap();
    assert_eq!(to_json_string(&v), String::from(r#""hello""#));
}

#[test]
fn test_decode_list() {
    assert_eq!(json_of_str("l5:mangoi921ee"), String::from(r#"["mango",921]"#));
    assert_eq!(json_of_str("lli921e5:mangoee"), String::from(r#"[[921,"mango"]]"#));
    assert_eq!(json_of_str("lli4eei5ee"), String::from(r"[[4],5]"));
}

#[test]
fn test_decode_dictionary() {
    assert_eq!(json_of_str("d3:foo3:bar5:helloi52ee"), String::from(r#"{"foo":"bar","hello":52}"#));
    assert_eq!(json_of_str("de"), String::from("{}"));
    assert_eq!(
        json_of_str("d3:food3:foo3:bar5:helloi52eee"),
        String::from(r#"{"foo":{"foo":"bar","hello":52}}"#)
    );
}

#[test]
fn round_trip_dictionary_bytes() {
    // Re-encoding the decoded form of a canonical dictionary yields
    // the original bytes.
    let input = b"d3:foo3:bar5:helloi52ee".to_vec();
    let mut ctx = DecodeContext::new(input.clone());
    let v = decode_bencoded_value(&mut ctx).unwrap();
    let mut ec = EncodeContext::new();
    encode_value(&mut ec, &v);
    assert_eq!(ec.consume(), input);
}

#[test]
fn round_trip_nested_value() {
    let input = b"d4:infod5:filesl3:abci-1ee6:lengthi55e4:name3:a bee".to_vec();
    let mut ctx = DecodeContext::new(input.clone());
    let v = decode_bencoded_value(&mut ctx).unwrap();
    let mut ec = EncodeContext::new();
    encode_value(&mut ec, &v);
    assert_eq!(ec.consume(), input);
}

#[test]
fn decode_binary_byte_string() {
    // A byte string survives even when it holds NUL and non-UTF-8
    // bytes.
    let mut input = b"4:".to_vec();
    input.extend_from_slice(&[0x00, 0xff, 0x80, 0x01]);
    let mut ctx = DecodeContext::new(input.clone());
    let v = decode_bencoded_value(&mut ctx).unwrap();
    match &v {
        Bencode::Bytes(b) => assert_eq!(b, &vec![0x00, 0xff, 0x80, 0x01]),
        _ => panic!("expected bytes"),
    }
    let mut ec = EncodeContext::new();
    encode_value(&mut ec, &v);
    assert_eq!(ec.consume(), input);
}

#[test]
fn decode_integer_forms() {
    assert!(matches!(decode_str("i0e").unwrap(), Bencode::Int(0)));
    assert!(matches!(decode_str("i-1e").unwrap(), Bencode::Int(-1)));
    // No leading zeros, no negative zero, no empty digits.
    assert_eq!(decode_str("i03e"), Err(BencodeError::InvalidInteger(0)));
    assert_eq!(decode_str("i-0e"), Err(BencodeError::InvalidInteger(0)));
    assert_eq!(decode_str("ie"), Err(BencodeError::InvalidInteger(0)));
    // Values beyond 64 bits are rejected.
    assert_eq!(decode_str("i9223372036854775807e").unwrap(), Bencode::Int(i64::MAX));
    assert_eq!(decode_str("i-9223372036854775808e").unwrap(), Bencode::Int(i64::MIN));
    assert_eq!(decode_str("i9223372036854775808e"), Err(BencodeError::InvalidInteger(0)));
}

#[test]
fn decode_errors() {
    assert_eq!(decode_str(""), Err(BencodeError::Truncated));
    assert_eq!(decode_str("5:hel"), Err(BencodeError::Truncated));
    assert_eq!(decode_str("i52"), Err(BencodeError::Truncated));
    assert_eq!(decode_str("x"), Err(BencodeError::InvalidPrefix(0)));
    assert_eq!(decode_str("05:hello"), Err(BencodeError::InvalidLength(0)));
    assert_eq!(decode_str("l5:hel"), Err(BencodeError::Truncated));
    assert_eq!(decode_str("di1e3:fooe"), Err(BencodeError::KeyNotString(1)));
    // Keys must be strictly ascending.
    assert_eq!(decode_str("d5:hello3:bar3:fooi1ee"), Err(BencodeError::KeyOrder(13)));
    assert_eq!(decode_str("d3:fooi1e3:fooi2ee"), Err(BencodeError::KeyOrder(9)));
}

#[test]
fn encode_emits_sorted_keys_ascending() {
    // The decoder only accepts ascending keys and the encoder emits
    // stored order, so emitted key order is ascending byte-wise.
    let input = b"d1:ai1e1:bi2e2:bai3ee".to_vec();
    let mut ctx = DecodeContext::new(input.clone());
    let v = decode_bencoded_value(&mut ctx).unwrap();
    match &v {
        Bencode::Dict(entries) => {
            let mut ec = EncodeContext::new();
            encode_dictionary(&mut ec, entries);
            assert_eq!(ec.consume(), input);
        },
        _ => panic!("expected dictionary"),
    }
}

#[test]
fn encode_integer_magnitudes() {
    let cases: Vec<(i64, &[u8])> = vec![
        (0, b"i0e"),
        (52, b"i52e"),
        (-52, b"i-52e"),
        (i64::MAX, b"i9223372036854775807e"),
        (i64::MIN, b"i-9223372036854775808e"),
    ];
    for (n, expect) in cases {
        let mut ec = EncodeContext::new();
        encode_integer(&mut ec, n);
        assert_eq!(ec.consume(), expect.to_vec());
    }
}

#[test]
fn decode_context_cursor() {
    let mut ctx = DecodeContext::new(b"5:hello".to_vec());
    assert_eq!(ctx.pos(), 0);
    assert_eq!(ctx.position(b':'), Some(1));
    assert_eq!(ctx.position(b'x'), None);
    assert_eq!(ctx.peek(), Some(b'5'));
    assert!(!ctx.ended());
    let taken = ctx.advance_many(2).unwrap();
    assert_eq!(taken, b"5:".to_vec());
    assert_eq!(ctx.pos(), 2);
    assert_eq!(ctx.advance_many(9), None);
    assert_eq!(ctx.data(), &b"5:hello".to_vec());
}

#[test]
fn json_escapes() {
    let mut input = b"3:".to_vec();
    input.extend_from_slice(&[b'"', b'\\', 0x0a]);
    let mut ctx = DecodeContext::new(input);
    let v = decode_bencoded_value(&mut ctx).unwrap();
    assert_eq!(to_json_string(&v), String::from("\"\\\"\\\\\\n\""));
}
