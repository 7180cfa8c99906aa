//! The JSON wire-format parser and its accessors.

use lnxdrive_client::bytes::{parse_u32, parse_u64};
use lnxdrive_client::json::{parse_json, Json};

#[test]
fn parse_scalars() {
    assert!(matches!(parse_json(b"null"), Some(Json::Null)));
    assert!(matches!(parse_json(b"true"), Some(Json::Bool(true))));
    assert!(matches!(parse_json(b"false"), Some(Json::Bool(false))));
    match parse_json(b" 42 ") {
        Some(Json::Num(tok)) => assert_eq!(tok, b"42".to_vec()),
        other => panic!("expected a number, got {:?}", other.is_some()),
    }
    match parse_json(b"\"hi\"") {
        Some(Json::Str(s)) => assert_eq!(s, b"hi".to_vec()),
        _ => panic!("expected a string"),
    }
}

#[test]
fn parse_string_escapes() {
    match parse_json(br#""a\"b\\c\nd\te""#) {
        Some(Json::Str(s)) => assert_eq!(s, b"a\"b\\c\nd\te".to_vec()),
        _ => panic!("expected a string"),
    }
    // a unicode escape is outside the accepted grammar
    assert!(parse_json(b"\"a\\u0041b\"").is_none());
    // multi-byte characters pass through as their bytes
    match parse_json("\"héllo\"".as_bytes()) {
        Some(Json::Str(s)) => assert_eq!(s, "héllo".as_bytes().to_vec()),
        _ => panic!("expected a string"),
    }
}

#[test]
fn parse_structures_and_lookup() {
    let v = parse_json(br#"{ "a": [1, 2, 3], "b": {"c": "deep"}, "a": "shadowed" }"#).unwrap();
    match v.get(b"a") {
        Some(Json::Arr(items)) => assert_eq!(items.len(), 3),
        _ => panic!("expected the first member named a"),
    }
    let inner = v.get(b"b").unwrap();
    assert_eq!(inner.str_field(b"c"), Some(b"deep".to_vec()));
    assert!(v.get(b"missing").is_none());
    assert_eq!(v.str_field(b"b"), None);
}

#[test]
fn numbers_read_as_integers_only_when_plain() {
    assert_eq!(parse_json(b"1024").unwrap().as_u64(), Some(1024));
    assert_eq!(parse_json(b"18446744073709551615").unwrap().as_u64(), Some(u64::MAX));
    assert_eq!(parse_json(b"18446744073709551616").unwrap().as_u64(), None);
    assert_eq!(parse_json(b"-5").unwrap().as_u64(), None);
    assert_eq!(parse_json(b"1.5").unwrap().as_u64(), None);
    assert_eq!(parse_json(b"1e3").unwrap().as_u64(), None);
    assert_eq!(parse_json(b"\"7\"").unwrap().as_u64(), None);
}

#[test]
fn malformed_texts_are_refused() {
    assert!(parse_json(b"").is_none());
    assert!(parse_json(b"[1, 2").is_none());
    assert!(parse_json(b"{\"a\" 1}").is_none());
    assert!(parse_json(b"[1,]").is_none());
    assert!(parse_json(b"{\"a\": 1,}").is_none());
    assert!(parse_json(b"tru").is_none());
    assert!(parse_json(b"1 2").is_none());
    assert!(parse_json(b"\"unterminated").is_none());
}

#[test]
fn whitespace_is_allowed_between_tokens() {
    let v = parse_json(b" {\r\n\t\"k\" :\n [ true , null ] }\n ").unwrap();
    match v.get(b"k") {
        Some(Json::Arr(items)) => {
            assert_eq!(items.len(), 2);
            assert!(matches!(items[0], Json::Bool(true)));
            assert!(matches!(items[1], Json::Null));
        },
        _ => panic!("expected an array"),
    }
}

#[test]
fn digit_run_parsing_bounds() {
    assert_eq!(parse_u32(b"0"), Some(0));
    assert_eq!(parse_u32(b"007"), Some(7));
    assert_eq!(parse_u32(b"4294967295"), Some(u32::MAX));
    assert_eq!(parse_u32(b"4294967296"), None);
    assert_eq!(parse_u32(b""), None);
    assert_eq!(parse_u32(b"12a"), None);
    assert_eq!(parse_u64(b"18446744073709551615"), Some(u64::MAX));
    assert_eq!(parse_u64(b"18446744073709551616"), None);
}
