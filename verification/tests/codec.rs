//! Wire codec behaviour: encoding shapes, exact consumed byte counts,
//! strictness, and incremental parsing.

use miniredis::resp::{ParseError, RespValue, encode, find_crlf, parse_array, parse_bulk, parse_int, parse_msg, parse_simple};

fn enc(v: &RespValue) -> Vec<u8> {
    encode(v)
}

fn bulk(s: &[u8]) -> RespValue {
    RespValue::BulkString(s.to_vec())
}

#[test]
fn encode_simple_string() {
    assert_eq!(enc(&RespValue::SimpleString(b"OK".to_vec())), b"+OK\r\n".to_vec());
}

#[test]
fn encode_error() {
    assert_eq!(
        enc(&RespValue::SimpleError(b"ERR x".to_vec())),
        b"-ERR x\r\n".to_vec()
    );
}

#[test]
fn encode_integer() {
    assert_eq!(enc(&RespValue::Integer(42)), b":42\r\n".to_vec());
    assert_eq!(enc(&RespValue::Integer(-7)), b":-7\r\n".to_vec());
    assert_eq!(enc(&RespValue::Integer(0)), b":0\r\n".to_vec());
}

#[test]
fn encode_bulk_and_nulls() {
    assert_eq!(enc(&bulk(b"bar")), b"$3\r\nbar\r\n".to_vec());
    assert_eq!(enc(&bulk(b"")), b"$0\r\n\r\n".to_vec());
    assert_eq!(enc(&RespValue::NullBulkString), b"$-1\r\n".to_vec());
    assert_eq!(enc(&RespValue::NullArray), b"*-1\r\n".to_vec());
}

#[test]
fn encode_array() {
    let v = RespValue::Array(vec![bulk(b"SET"), bulk(b"k"), bulk(b"v")]);
    assert_eq!(
        enc(&v),
        b"*3\r\n$3\r\nSET\r\n$1\r\nk\r\n$1\r\nv\r\n".to_vec()
    );
}

#[test]
fn parse_consumes_exact_frame() {
    let buf = b"*3\r\n$3\r\nSET\r\n$1\r\nk\r\n$1\r\nv\r\nEXTRA";
    let (v, n) = parse_msg(buf).unwrap();
    assert_eq!(n, buf.len() - 5);
    let back = enc(&v);
    assert_eq!(&buf[..n], &back[..]);
}

#[test]
fn parse_roundtrips_every_kind() {
    let vals = vec![
        RespValue::SimpleString(b"PONG".to_vec()),
        RespValue::SimpleError(b"ERR nope".to_vec()),
        RespValue::Integer(-123),
        bulk(b"hello"),
        RespValue::NullBulkString,
        RespValue::NullArray,
        RespValue::Array(vec![RespValue::Integer(1), bulk(b"two")]),
        RespValue::Array(vec![]),
    ];
    for v in &vals {
        let bytes = enc(v);
        let (w, n) = parse_msg(&bytes).unwrap();
        assert_eq!(n, bytes.len());
        assert_eq!(enc(&w), bytes);
    }
}

#[test]
fn parse_incomplete_asks_for_more() {
    assert!(matches!(parse_msg(b""), Err(ParseError::Incomplete)));
    assert!(matches!(parse_msg(b"+OK"), Err(ParseError::Incomplete)));
    assert!(matches!(parse_msg(b"$5\r\nab"), Err(ParseError::Incomplete)));
    assert!(matches!(parse_msg(b"*2\r\n:1\r\n"), Err(ParseError::Incomplete)));
}

#[test]
fn parse_rejects_junk() {
    assert!(matches!(parse_msg(b"hello\r\n"), Err(ParseError::Malformed)));
    assert!(matches!(parse_msg(b":01\r\n"), Err(ParseError::Malformed)));
    assert!(matches!(parse_msg(b":-0\r\n"), Err(ParseError::Malformed)));
    assert!(matches!(parse_msg(b"$03\r\nabc\r\n"), Err(ParseError::Malformed)));
}

#[test]
fn parse_binary_bulk() {
    let v = bulk(&[0, 1, 2, 255, 13, 10, 7]);
    let bytes = enc(&v);
    let (w, n) = parse_msg(&bytes).unwrap();
    assert_eq!(n, bytes.len());
    assert_eq!(enc(&w), bytes);
}

#[test]
fn kind_parsers_directly() {
    let (v, n) = parse_simple(b"+OK\r\nrest").unwrap();
    assert_eq!(n, 5);
    assert_eq!(enc(&v), b"+OK\r\n".to_vec());
    let (v, n) = parse_int(b":-42\r\n").unwrap();
    assert_eq!(n, 6);
    assert_eq!(enc(&v), b":-42\r\n".to_vec());
    let (v, n) = parse_bulk(b"$2\r\nab\r\n").unwrap();
    assert_eq!(n, 8);
    assert_eq!(enc(&v), b"$2\r\nab\r\n".to_vec());
    let (v, n) = parse_array(b"*1\r\n:5\r\n").unwrap();
    assert_eq!(n, 8);
    assert_eq!(enc(&v), b"*1\r\n:5\r\n".to_vec());
}

#[test]
fn find_crlf_first_pair() {
    assert_eq!(find_crlf(b"ab\r\ncd\r\n"), Some(2));
    assert_eq!(find_crlf(b"\r\n"), Some(0));
    assert_eq!(find_crlf(b"abc"), None);
}
