use redis_lite::decimal::{parse_i64, parse_u64, push_i64_text, push_u64_text, u64_string};
use redis_lite::resp::{parse_integer, parse_line, parse_utf8, skip_crlf, Data, DecodeError};

fn bulk(s: &str) -> Data {
    Data::BulkString(Some(s.to_string()))
}

fn round_trip(d: Data) {
    let bytes = d.encode();
    let (back, rest) = Data::decode(&bytes).unwrap();
    assert_eq!(back, d);
    assert!(rest.is_empty());
}

#[test]
fn encode_simple_string() {
    assert_eq!(Data::SimpleString("OK".to_string()).encode(), b"+OK\r\n".to_vec());
}

#[test]
fn encode_simple_error() {
    assert_eq!(Data::SimpleError("ERR bad".to_string()).encode(), b"-ERR bad\r\n".to_vec());
}

#[test]
fn encode_integers() {
    assert_eq!(Data::Integer(0).encode(), b":0\r\n".to_vec());
    assert_eq!(Data::Integer(-42).encode(), b":-42\r\n".to_vec());
    assert_eq!(Data::Integer(i64::MIN).encode(), b":-9223372036854775808\r\n".to_vec());
    assert_eq!(Data::Integer(i64::MAX).encode(), b":9223372036854775807\r\n".to_vec());
}

#[test]
fn encode_bulk_strings() {
    assert_eq!(bulk("bar").encode(), b"$3\r\nbar\r\n".to_vec());
    assert_eq!(bulk("").encode(), b"$0\r\n\r\n".to_vec());
    assert_eq!(Data::BulkString(None).encode(), b"$-1\r\n".to_vec());
    // The length counts bytes, not characters.
    assert_eq!(bulk("é").encode(), "$2\r\né\r\n".as_bytes().to_vec());
}

#[test]
fn encode_arrays() {
    assert_eq!(Data::Array(vec![]).encode(), b"*0\r\n".to_vec());
    let request = Data::Array(vec![bulk("GET"), bulk("foo")]);
    assert_eq!(request.encode(), b"*2\r\n$3\r\nGET\r\n$3\r\nfoo\r\n".to_vec());
    let nested = Data::Array(vec![Data::Integer(1), Data::Array(vec![Data::BulkString(None)])]);
    assert_eq!(nested.encode(), b"*2\r\n:1\r\n*1\r\n$-1\r\n".to_vec());
}

#[test]
fn encode_into_appends() {
    let mut out = b"xy".to_vec();
    Data::Integer(7).encode_into(&mut out);
    assert_eq!(out, b"xy:7\r\n".to_vec());
}

#[test]
fn decode_ping_request() {
    let (d, rest) = Data::decode(b"*1\r\n$4\r\nPING\r\n").unwrap();
    assert_eq!(d, Data::Array(vec![bulk("PING")]));
    assert!(rest.is_empty());
}

#[test]
fn decode_hands_back_the_rest() {
    let input = b"+OK\r\n:5\r\nextra";
    let (d, rest) = Data::decode(input).unwrap();
    assert_eq!(d, Data::SimpleString("OK".to_string()));
    assert_eq!(rest, b":5\r\nextra");
    let (d, rest) = Data::decode(rest).unwrap();
    assert_eq!(d, Data::Integer(5));
    assert_eq!(rest, b"extra");
}

#[test]
fn decode_each_kind() {
    assert_eq!(Data::decode(b"-ERR x\r\n").unwrap().0, Data::SimpleError("ERR x".to_string()));
    assert_eq!(Data::decode(b":-17\r\n").unwrap().0, Data::Integer(-17));
    assert_eq!(Data::decode(b":+17\r\n").unwrap().0, Data::Integer(17));
    assert_eq!(Data::decode(b"$-1\r\n").unwrap().0, Data::BulkString(None));
    assert_eq!(Data::decode(b"$0\r\n\r\n").unwrap().0, bulk(""));
    assert_eq!(Data::decode(b"$4\r\na\r\nb\r\n").unwrap().0, bulk("a\r\nb"));
}

#[test]
fn decode_array_of_minus_one_is_empty() {
    let (d, rest) = Data::decode(b"*-1\r\n").unwrap();
    assert_eq!(d, Data::Array(vec![]));
    assert!(rest.is_empty());
}

#[test]
fn decode_empty_input() {
    assert_eq!(Data::decode(b""), Err(DecodeError::Empty));
}

#[test]
fn decode_missing_crlf() {
    assert_eq!(Data::decode(b"+OK"), Err(DecodeError::NoCrlf));
    assert_eq!(Data::decode(b"+OK\r"), Err(DecodeError::NoCrlf));
    assert_eq!(Data::decode(b"*2\r\n$3\r\nGET\r\n"), Err(DecodeError::Empty));
}

#[test]
fn decode_truncated_bulk() {
    assert_eq!(Data::decode(b"$10\r\nabc\r\n"), Err(DecodeError::Truncated));
    assert_eq!(Data::decode(b"$3\r\nabc"), Err(DecodeError::Truncated));
}

#[test]
fn decode_bad_terminator() {
    assert_eq!(Data::decode(b"$3\r\nabcd\r\n"), Err(DecodeError::BadTerminator));
}

#[test]
fn decode_invalid_utf8() {
    assert_eq!(Data::decode(b"+\xff\r\n"), Err(DecodeError::InvalidUtf8));
    assert_eq!(Data::decode(b"$2\r\n\xc3\x28\r\n"), Err(DecodeError::InvalidUtf8));
}

#[test]
fn decode_invalid_integer() {
    assert_eq!(Data::decode(b":12a\r\n"), Err(DecodeError::InvalidInteger));
    assert_eq!(Data::decode(b":\r\n"), Err(DecodeError::InvalidInteger));
    assert_eq!(Data::decode(b":9223372036854775808\r\n"), Err(DecodeError::InvalidInteger));
    assert_eq!(Data::decode(b"$x\r\n"), Err(DecodeError::InvalidInteger));
}

#[test]
fn decode_invalid_length() {
    assert_eq!(Data::decode(b"$-2\r\n"), Err(DecodeError::InvalidLength));
    assert_eq!(Data::decode(b"*-5\r\n"), Err(DecodeError::InvalidLength));
}

#[test]
fn decode_unknown_type() {
    assert_eq!(Data::decode(b"?x\r\n"), Err(DecodeError::UnknownType));
}

#[test]
fn decode_fails_on_a_bad_element() {
    assert_eq!(Data::decode(b"*2\r\n:1\r\n?\r\n"), Err(DecodeError::UnknownType));
}

#[test]
fn decode_error_messages() {
    assert_eq!(DecodeError::Empty.message(), "RESP empty data");
    assert_eq!(DecodeError::NoCrlf.message(), "RESP no crlf");
    assert_eq!(DecodeError::Truncated.message(), "RESP truncated bulk string");
    assert_eq!(DecodeError::BadTerminator.message(), "RESP no crlf");
    assert_eq!(DecodeError::InvalidUtf8.message(), "RESP invalid utf8");
    assert_eq!(DecodeError::InvalidInteger.message(), "RESP invalid integer");
    assert_eq!(DecodeError::InvalidLength.message(), "RESP invalid length");
    assert_eq!(DecodeError::UnknownType.message(), "UNIMPLEMENTED unknown data type");
}

#[test]
fn incomplete_errors() {
    assert!(DecodeError::Empty.is_incomplete());
    assert!(DecodeError::NoCrlf.is_incomplete());
    assert!(DecodeError::Truncated.is_incomplete());
    assert!(!DecodeError::BadTerminator.is_incomplete());
    assert!(!DecodeError::InvalidUtf8.is_incomplete());
    assert!(!DecodeError::UnknownType.is_incomplete());
}

#[test]
fn round_trips() {
    round_trip(Data::SimpleString("hello world".to_string()));
    round_trip(Data::SimpleString(String::new()));
    round_trip(Data::SimpleError("ERR x".to_string()));
    round_trip(Data::Integer(i64::MIN));
    round_trip(Data::Integer(123));
    round_trip(Data::BulkString(None));
    round_trip(bulk("line\r\nbreak"));
    round_trip(bulk("ünïcödé"));
    round_trip(Data::Array(vec![]));
    round_trip(Data::Array(vec![
        bulk("SET"),
        Data::Array(vec![Data::Integer(-1), Data::SimpleString("x".to_string())]),
        Data::BulkString(None),
    ]));
}

#[test]
fn line_helpers() {
    let (line, rest) = parse_line(b"abc\r\ndef").unwrap();
    assert_eq!(line, b"abc");
    assert_eq!(rest, b"def");
    assert_eq!(parse_line(b"abc\n"), Err(DecodeError::NoCrlf));
    assert_eq!(skip_crlf(b"\r\nz").unwrap(), b"z");
    assert_eq!(skip_crlf(b"z\r\n"), Err(DecodeError::BadTerminator));
    assert_eq!(skip_crlf(b"\r"), Err(DecodeError::BadTerminator));
}

#[test]
fn text_helpers() {
    assert_eq!(parse_utf8("héllo".as_bytes()).unwrap(), "héllo");
    assert_eq!(parse_utf8(b"\xe2\x82"), Err(DecodeError::InvalidUtf8));
    assert_eq!(parse_integer(b"-12"), Ok(-12));
    assert_eq!(parse_integer(b"--1"), Err(DecodeError::InvalidInteger));
}

#[test]
fn decimal_text() {
    let mut out = Vec::new();
    push_u64_text(&mut out, 0);
    push_u64_text(&mut out, 1907);
    push_i64_text(&mut out, -5);
    assert_eq!(out, b"01907-5".to_vec());
    assert_eq!(u64_string(u64::MAX), "18446744073709551615");
    assert_eq!(u64_string(0), "0");
}

#[test]
fn decimal_parsing() {
    assert_eq!(parse_i64(b"-9223372036854775808"), Some(i64::MIN));
    assert_eq!(parse_i64(b"+007"), Some(7));
    assert_eq!(parse_i64(b"-"), None);
    assert_eq!(parse_i64(b""), None);
    assert_eq!(parse_i64(b" 1"), None);
    assert_eq!(parse_u64(b"18446744073709551615"), Some(u64::MAX));
    assert_eq!(parse_u64(b"18446744073709551616"), None);
    assert_eq!(parse_u64(b"+50"), Some(50));
    assert_eq!(parse_u64(b"-0"), None);
    assert_eq!(parse_u64(b"5x"), None);
}

#[test]
fn open_line_that_no_frame_starts_is_malformed() {
    assert_eq!(Data::decode(b":x"), Err(DecodeError::InvalidInteger));
    assert_eq!(Data::decode(b"$abc"), Err(DecodeError::InvalidInteger));
    assert_eq!(Data::decode(b"*1\r\n:x"), Err(DecodeError::InvalidInteger));
    assert_eq!(Data::decode(b":1\rx"), Err(DecodeError::InvalidInteger));
    assert_eq!(Data::decode(b"+\xff"), Err(DecodeError::InvalidUtf8));
    assert_eq!(Data::decode(b"-ok\xc0"), Err(DecodeError::InvalidUtf8));
}

#[test]
fn open_line_that_may_grow_is_incomplete() {
    assert_eq!(Data::decode(b":"), Err(DecodeError::NoCrlf));
    assert_eq!(Data::decode(b":-"), Err(DecodeError::NoCrlf));
    assert_eq!(Data::decode(b":12\r"), Err(DecodeError::NoCrlf));
    assert_eq!(Data::decode(b"$3\r\nba"), Err(DecodeError::Truncated));
    assert_eq!(Data::decode(b"*2\r\n$3\r\nGET\r\n$"), Err(DecodeError::NoCrlf));
    assert_eq!(Data::decode(b"+\xe2\x82"), Err(DecodeError::NoCrlf));
    assert_eq!(Data::decode(b"+ok\r"), Err(DecodeError::NoCrlf));
}

#[test]
fn every_proper_prefix_is_incomplete() {
    let frame = Data::Array(vec![
        bulk("SET"),
        bulk("k\u{e9}y"),
        Data::Integer(-12),
        Data::SimpleString("h\u{e9}".to_string()),
        Data::BulkString(None),
    ])
    .encode();
    for n in 0..frame.len() {
        let e = Data::decode(&frame[..n]).unwrap_err();
        assert!(e.is_incomplete(), "prefix of {n} bytes gave {e:?}");
    }
}

#[test]
fn header_that_can_no_longer_be_right_is_malformed() {
    assert_eq!(Data::decode(b"$-2"), Err(DecodeError::InvalidLength));
    assert_eq!(Data::decode(b"*-10"), Err(DecodeError::InvalidLength));
    assert_eq!(Data::decode(b"$-2\r"), Err(DecodeError::InvalidLength));
    assert_eq!(Data::decode(b":99999999999999999999"), Err(DecodeError::InvalidInteger));
    assert_eq!(Data::decode(b":-9223372036854775809"), Err(DecodeError::InvalidInteger));
    assert_eq!(Data::decode(b"$100000000000000000000"), Err(DecodeError::InvalidInteger));
    assert_eq!(Data::decode(b":-\r"), Err(DecodeError::InvalidInteger));
    assert_eq!(Data::decode(b":\r"), Err(DecodeError::InvalidInteger));
}

#[test]
fn header_that_may_still_be_right_is_incomplete() {
    assert_eq!(Data::decode(b"$-"), Err(DecodeError::NoCrlf));
    assert_eq!(Data::decode(b"$-1"), Err(DecodeError::NoCrlf));
    assert_eq!(Data::decode(b"$-0"), Err(DecodeError::NoCrlf));
    assert_eq!(Data::decode(b"*-1\r"), Err(DecodeError::NoCrlf));
    assert_eq!(Data::decode(b":-9223372036854775808"), Err(DecodeError::NoCrlf));
    assert_eq!(Data::decode(b":9223372036854775807\r"), Err(DecodeError::NoCrlf));
}

#[test]
fn payload_that_can_no_longer_be_right_is_malformed() {
    assert_eq!(Data::decode(b"$3\r\n\xff"), Err(DecodeError::InvalidUtf8));
    assert_eq!(Data::decode(b"$3\r\nabcX"), Err(DecodeError::BadTerminator));
    assert_eq!(Data::decode(b"$3\r\na\xffc\r"), Err(DecodeError::InvalidUtf8));
    assert_eq!(Data::decode(b"$3\r\nabc\r"), Err(DecodeError::Truncated));
    assert_eq!(Data::decode(b"$4\r\na\xe2\x82"), Err(DecodeError::Truncated));
}

#[test]
fn payload_whose_last_character_cannot_fit_is_malformed() {
    assert_eq!(Data::decode(b"$2\r\n\xf0"), Err(DecodeError::InvalidUtf8));
    assert_eq!(Data::decode(b"$3\r\na\xe2"), Err(DecodeError::InvalidUtf8));
    assert_eq!(Data::decode(b"$4\r\na\xe2"), Err(DecodeError::Truncated));
    assert_eq!(Data::decode(b"$4\r\n\xf0\x9f"), Err(DecodeError::Truncated));
}
