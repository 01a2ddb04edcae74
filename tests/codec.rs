use bytes::BytesMut;
use resp_gate::resp::{Outcome, RespError, RespParser, RespValue};

fn bulk(s: &str) -> RespValue {
    RespValue::BulkString(Some(s.to_string()))
}

fn round_trip(v: RespValue) {
    let bytes = RespParser::serializer(clone_value(&v));
    let n = bytes.len();
    assert_eq!(RespParser::decode(&bytes), Outcome::Complete(v, n));
}

fn clone_value(v: &RespValue) -> RespValue {
    match v {
        RespValue::SimpleString(s) => RespValue::SimpleString(s.clone()),
        RespValue::Error(s) => RespValue::Error(s.clone()),
        RespValue::Integer(n) => RespValue::Integer(*n),
        RespValue::BulkString(s) => RespValue::BulkString(s.clone()),
        RespValue::Array(xs) => RespValue::Array(xs.iter().map(clone_value).collect()),
        RespValue::Null => RespValue::Null,
    }
}

#[test]
fn serializes_each_kind() {
    assert_eq!(RespParser::serializer(RespValue::SimpleString("OK".to_string())), b"+OK\r\n".to_vec());
    assert_eq!(RespParser::serializer(RespValue::Error("ERR bad".to_string())), b"-ERR bad\r\n".to_vec());
    assert_eq!(RespParser::serializer(RespValue::Integer(-42)), b":-42\r\n".to_vec());
    assert_eq!(RespParser::serializer(RespValue::Integer(0)), b":0\r\n".to_vec());
    assert_eq!(
        RespParser::serializer(RespValue::Integer(i64::MIN)),
        b":-9223372036854775808\r\n".to_vec()
    );
    assert_eq!(RespParser::serializer(RespValue::BulkString(None)), b"$-1\r\n".to_vec());
    assert_eq!(RespParser::serializer(bulk("hello")), b"$5\r\nhello\r\n".to_vec());
    assert_eq!(RespParser::serializer(RespValue::Null), b"_\r\n".to_vec());
    assert_eq!(
        RespParser::serializer(RespValue::Array(vec![bulk("GET"), bulk("k")])),
        b"*2\r\n$3\r\nGET\r\n$1\r\nk\r\n".to_vec()
    );
    assert_eq!(RespParser::serializer(RespValue::Array(vec![])), b"*0\r\n".to_vec());
}

#[test]
fn round_trips_every_kind() {
    round_trip(RespValue::SimpleString("OK".to_string()));
    round_trip(RespValue::SimpleString(String::new()));
    round_trip(RespValue::Error("ERR unknown command".to_string()));
    round_trip(RespValue::Integer(0));
    round_trip(RespValue::Integer(i64::MAX));
    round_trip(RespValue::Integer(i64::MIN));
    round_trip(bulk("value"));
    round_trip(RespValue::Null);
    round_trip(RespValue::Array(vec![]));
    round_trip(RespValue::Array(vec![
        RespValue::Integer(7),
        RespValue::SimpleString("x".to_string()),
        bulk("y"),
        RespValue::Null,
    ]));
}

#[test]
fn bulk_text_is_kept_exactly() {
    round_trip(bulk(""));
    round_trip(bulk("a\0b"));
    round_trip(bulk("h\u{e9}llo \u{20ac} \u{1F600}"));
    round_trip(bulk("line\r\nbreak"));
    let bytes = RespParser::serializer(bulk("\u{e9}"));
    assert_eq!(bytes, b"$2\r\n\xc3\xa9\r\n".to_vec());
}

#[test]
fn nested_arrays_round_trip() {
    let v = RespValue::Array(vec![RespValue::Array(vec![bulk("hi")])]);
    let bytes = RespParser::serializer(clone_value(&v));
    assert_eq!(bytes, b"*1\r\n*1\r\n$2\r\nhi\r\n".to_vec());
    assert_eq!(RespParser::decode(&bytes), Outcome::Complete(v, 16));
}

#[test]
fn prefixes_are_incomplete() {
    let v = RespValue::Array(vec![
        RespValue::Array(vec![bulk("hi"), RespValue::Integer(-12)]),
        RespValue::SimpleString("OK".to_string()),
        RespValue::Error("E".to_string()),
        RespValue::Null,
    ]);
    let bytes = RespParser::serializer(v);
    for k in 1..bytes.len() {
        assert_eq!(RespParser::decode(&bytes[..k]), Outcome::Incomplete, "prefix {}", k);
    }
}

#[test]
fn prefixes_with_absent_and_null_items_are_incomplete() {
    let v = RespValue::Array(vec![
        RespValue::BulkString(None),
        RespValue::Null,
        RespValue::SimpleString("a\rb".to_string()),
        RespValue::Integer(3),
    ]);
    let bytes = RespParser::serializer(v);
    for k in 1..bytes.len() {
        assert_eq!(RespParser::decode(&bytes[..k]), Outcome::Incomplete, "prefix {}", k);
    }
}

#[test]
fn unknown_first_byte_is_malformed() {
    for b in [b'x', b'!', b'0', b'\r', b' ', 0u8, 0xffu8] {
        assert_eq!(RespParser::decode(&[b]), Outcome::Malformed);
        assert_eq!(RespParser::decode(&[b, b'+', b'O', b'K', b'\r', b'\n']), Outcome::Malformed);
    }
}

#[test]
fn empty_buffer_is_incomplete() {
    assert_eq!(RespParser::decode(b""), Outcome::Incomplete);
}

#[test]
fn decodes_with_trailing_bytes() {
    assert_eq!(
        RespParser::decode(b"+OK\r\n:1\r\n"),
        Outcome::Complete(RespValue::SimpleString("OK".to_string()), 5)
    );
    assert_eq!(
        RespParser::decode(b"$3\r\nabc\r\nrest"),
        Outcome::Complete(bulk("abc"), 9)
    );
}

#[test]
fn absent_markers_decode_as_null() {
    assert_eq!(RespParser::decode(b"$-1\r\n"), Outcome::Complete(RespValue::Null, 5));
    assert_eq!(RespParser::decode(b"*-1\r\n"), Outcome::Complete(RespValue::Null, 5));
    assert_eq!(RespParser::decode(b"_\r\n"), Outcome::Complete(RespValue::Null, 3));
    assert_eq!(RespParser::decode(b"_\r\n+OK\r\n"), Outcome::Incomplete);
}

#[test]
fn integers_must_fit() {
    assert_eq!(
        RespParser::decode(b":9223372036854775807\r\n"),
        Outcome::Complete(RespValue::Integer(i64::MAX), 22)
    );
    assert_eq!(RespParser::decode(b":9223372036854775808\r\n"), Outcome::Malformed);
    assert_eq!(RespParser::decode(b":-9223372036854775809\r\n"), Outcome::Malformed);
    assert_eq!(RespParser::decode(b":+5\r\n"), Outcome::Complete(RespValue::Integer(5), 5));
    assert_eq!(RespParser::decode(b":\r\n"), Outcome::Malformed);
    assert_eq!(RespParser::decode(b":-\r\n"), Outcome::Malformed);
    assert_eq!(RespParser::decode(b":1a\r\n"), Outcome::Malformed);
}

#[test]
fn bad_lengths_are_malformed() {
    assert_eq!(RespParser::decode(b"$-2\r\n"), Outcome::Malformed);
    assert_eq!(RespParser::decode(b"$-0\r\n\r\n"), Outcome::Malformed);
    assert_eq!(RespParser::decode(b"$x\r\n"), Outcome::Malformed);
    assert_eq!(RespParser::decode(b"*-2\r\n"), Outcome::Malformed);
    assert_eq!(RespParser::decode(b"*two\r\n"), Outcome::Malformed);
}

#[test]
fn invalid_text_is_malformed() {
    assert_eq!(RespParser::decode(b"+\xff\r\n"), Outcome::Malformed);
    assert_eq!(RespParser::decode(b"-\xc3\r\n"), Outcome::Malformed);
    assert_eq!(RespParser::decode(b"$1\r\n\xff\r\n"), Outcome::Malformed);
    assert_eq!(
        RespParser::decode(b"+h\xc3\xa9\r\n"),
        Outcome::Complete(RespValue::SimpleString("h\u{e9}".to_string()), 6)
    );
}

#[test]
fn short_or_unterminated_values_are_incomplete() {
    assert_eq!(RespParser::decode(b"+OK"), Outcome::Incomplete);
    assert_eq!(RespParser::decode(b"+OK\rX"), Outcome::Incomplete);
    assert_eq!(RespParser::decode(b"$5\r\nhel"), Outcome::Incomplete);
    assert_eq!(RespParser::decode(b"$2\r\nabcd"), Outcome::Incomplete);
    assert_eq!(RespParser::decode(b"*2\r\n$1\r\na\r\n"), Outcome::Incomplete);
    assert_eq!(RespParser::decode(b"*9223372036854775807\r\n:1\r\n"), Outcome::Incomplete);
}

#[test]
fn malformed_item_makes_array_malformed() {
    assert_eq!(RespParser::decode(b"*2\r\n:1\r\n?\r\n"), Outcome::Malformed);
}

#[test]
fn parse_takes_a_complete_value_off_the_buffer() {
    let mut buf = BytesMut::from(&b"+OK\r\n:5\r\n"[..]);
    assert_eq!(
        RespParser::parse(&mut buf),
        Ok(Some(RespValue::SimpleString("OK".to_string())))
    );
    assert_eq!(&buf[..], b":5\r\n");
    assert_eq!(RespParser::parse(&mut buf), Ok(Some(RespValue::Integer(5))));
    assert!(buf.is_empty());
    assert_eq!(RespParser::parse(&mut buf), Ok(None));
}

#[test]
fn parse_leaves_an_incomplete_buffer_untouched() {
    let mut buf = BytesMut::from(&b"*2\r\n$1\r\na\r\n$3\r\nbc"[..]);
    assert_eq!(RespParser::parse(&mut buf), Ok(None));
    assert_eq!(&buf[..], b"*2\r\n$1\r\na\r\n$3\r\nbc");
    buf.extend_from_slice(b"d\r\n");
    assert_eq!(
        RespParser::parse(&mut buf),
        Ok(Some(RespValue::Array(vec![bulk("a"), bulk("bcd")])))
    );
    assert!(buf.is_empty());
}

#[test]
fn parse_rejects_malformed_bytes_without_consuming() {
    let mut buf = BytesMut::from(&b"?what\r\n"[..]);
    assert_eq!(RespParser::parse(&mut buf), Err(RespError::Malformed));
    assert_eq!(&buf[..], b"?what\r\n");
}

#[test]
fn huge_bulk_lengths_wait_for_more_bytes() {
    assert_eq!(RespParser::decode(b"$18446744073709551615\r\n"), Outcome::Incomplete);
    assert_eq!(RespParser::decode(b"$9223372036854775808\r\nabc"), Outcome::Incomplete);
    assert_eq!(RespParser::decode(b"$18446744073709551616\r\n"), Outcome::Malformed);
    assert_eq!(RespParser::decode(b"$+3\r\nabc\r\n"), Outcome::Complete(bulk("abc"), 10));
    let mut buf = BytesMut::from(&b"$18446744073709551615\r\n"[..]);
    assert_eq!(RespParser::parse(&mut buf), Ok(None));
    assert_eq!(&buf[..], b"$18446744073709551615\r\n");
}
