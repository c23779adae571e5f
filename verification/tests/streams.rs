//! Streams: id rules, ranges, and the reply shapes of XADD, XRANGE and
//! the XREAD sections.

use miniredis::resp::encode;
use miniredis::store::Db;
use miniredis::stream::{Stream, XaddId, XaddError, parse_xadd_id};

fn b(s: &[u8]) -> Vec<u8> {
    s.to_vec()
}

fn field(k: &[u8], v: &[u8]) -> (Vec<u8>, Vec<u8>) {
    (k.to_vec(), v.to_vec())
}

#[test]
fn xadd_explicit_and_reply() {
    let mut db = Db::new();
    let (r, notify) = db.handle_xadd(
        &b(b"s"),
        XaddId::Explicit(1, 1),
        vec![field(b"f", b"v")],
        0,
        0,
    );
    assert_eq!(encode(&r), b"$3\r\n1-1\r\n".to_vec());
    assert!(notify);
}

#[test]
fn xadd_rejects_zero_and_smaller() {
    let mut stream = Stream::new();
    assert!(matches!(
        stream.add_entry(XaddId::Explicit(0, 0), 0, vec![]),
        Err(XaddError::Zero)
    ));
    stream.add_entry(XaddId::Explicit(5, 5), 0, vec![]).unwrap();
    assert!(matches!(
        stream.add_entry(XaddId::Explicit(5, 5), 0, vec![]),
        Err(XaddError::NotGreater)
    ));
    assert!(matches!(
        stream.add_entry(XaddId::Explicit(4, 9), 0, vec![]),
        Err(XaddError::NotGreater)
    ));
}

#[test]
fn xadd_error_replies() {
    let mut db = Db::new();
    db.handle_xadd(&b(b"s"), XaddId::Explicit(1, 1), vec![field(b"f", b"v")], 0, 0);
    let (r, notify) = db.handle_xadd(
        &b(b"s"),
        XaddId::Explicit(1, 1),
        vec![field(b"f", b"w")],
        0,
        0,
    );
    assert!(!notify);
    assert_eq!(
        encode(&r),
        b"-ERR The ID specified in XADD is equal or smaller than the target stream top item\r\n"
            .to_vec()
    );
    let (z, _) = db.handle_xadd(&b(b"z"), XaddId::Explicit(0, 0), vec![field(b"f", b"v")], 0, 0);
    assert_eq!(
        encode(&z),
        b"-ERR The ID specified in XADD must be greater than 0-0\r\n".to_vec()
    );
}

#[test]
fn xadd_auto_sequence() {
    let mut stream = Stream::new();
    assert_eq!(stream.add_entry(XaddId::AutoSeq(5), 0, vec![]).unwrap(), (5, 0));
    assert_eq!(stream.add_entry(XaddId::AutoSeq(5), 0, vec![]).unwrap(), (5, 1));
    assert_eq!(stream.add_entry(XaddId::AutoSeq(7), 0, vec![]).unwrap(), (7, 0));
}

#[test]
fn xadd_auto_uses_wall_clock() {
    let mut stream = Stream::new();
    assert_eq!(stream.add_entry(XaddId::Auto, 123, vec![]).unwrap(), (123, 0));
    assert_eq!(stream.add_entry(XaddId::Auto, 123, vec![]).unwrap(), (123, 1));
}

#[test]
fn parse_xadd_id_forms() {
    assert!(matches!(parse_xadd_id(&b(b"*")), Some(XaddId::Auto)));
    assert!(matches!(parse_xadd_id(&b(b"5-*")), Some(XaddId::AutoSeq(5))));
    assert!(matches!(parse_xadd_id(&b(b"5-7")), Some(XaddId::Explicit(5, 7))));
    assert!(matches!(parse_xadd_id(&b(b"5")), Some(XaddId::Explicit(5, 0))));
    assert!(parse_xadd_id(&b(b"x-y")).is_none());
}

#[test]
fn xrange_inclusive_window() {
    let mut db = Db::new();
    db.handle_xadd(&b(b"s"), XaddId::Explicit(1, 1), vec![field(b"a", b"1")], 0, 0);
    db.handle_xadd(&b(b"s"), XaddId::Explicit(2, 1), vec![field(b"b", b"2")], 0, 0);
    db.handle_xadd(&b(b"s"), XaddId::Explicit(3, 1), vec![field(b"c", b"3")], 0, 0);
    let r = db.handle_xrange(&b(b"s"), (1, 1), (2, 1), 0);
    assert_eq!(
        encode(&r),
        b"*2\r\n*2\r\n$3\r\n1-1\r\n*2\r\n$1\r\na\r\n$1\r\n1\r\n*2\r\n$3\r\n2-1\r\n*2\r\n$1\r\nb\r\n$1\r\n2\r\n"
            .to_vec()
    );
    let whole = db.handle_xrange(&b(b"s"), (0, 0), (u64::MAX, u64::MAX), 0);
    assert!(encode(&whole).starts_with(b"*3\r\n"));
}

#[test]
fn xread_sections_strictly_after() {
    let mut db = Db::new();
    db.handle_xadd(&b(b"s"), XaddId::Explicit(1, 1), vec![field(b"f", b"v")], 0, 0);
    db.handle_xadd(&b(b"s"), XaddId::Explicit(1, 2), vec![field(b"f", b"w")], 0, 0);
    // only entries above 1-1
    let sections = db.xread_collect(&vec![b(b"s")], &vec![(1, 1)], 0);
    let reply = miniredis::resp::RespValue::Array(sections);
    assert_eq!(
        encode(&reply),
        b"*1\r\n*2\r\n$1\r\ns\r\n*1\r\n*2\r\n$3\r\n1-2\r\n*2\r\n$1\r\nf\r\n$1\r\nw\r\n".to_vec()
    );
    // nothing above the top: no section
    let empty = db.xread_collect(&vec![b(b"s")], &vec![(1, 2)], 0);
    assert_eq!(empty.len(), 0);
}

#[test]
fn stream_largest_id() {
    let mut db = Db::new();
    assert_eq!(db.stream_largest(&b(b"s"), 0), (0, 0));
    db.handle_xadd(&b(b"s"), XaddId::Explicit(4, 2), vec![field(b"f", b"v")], 0, 0);
    assert_eq!(db.stream_largest(&b(b"s"), 0), (4, 2));
}
