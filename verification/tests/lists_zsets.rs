//! Lists (with the blocked-client registry) and sorted sets.

use miniredis::list::{BlockedClients, blpop_wake_reply};
use miniredis::resp::encode;
use miniredis::score::{Score, score_parse, score_format, score_less};
use miniredis::store::Db;

fn b(s: &[u8]) -> Vec<u8> {
    s.to_vec()
}

#[test]
fn rpush_lrange_llen() {
    let mut db = Db::new();
    let mut blocked = BlockedClients::new();
    let (r, wake) = db.handle_push(&b(b"l"), &vec![b(b"a"), b(b"b")], false, 0, &mut blocked);
    assert_eq!(encode(&r), b":2\r\n".to_vec());
    assert!(wake.is_none());
    let (r2, _) = db.handle_push(&b(b"l"), &vec![b(b"c")], false, 0, &mut blocked);
    assert_eq!(encode(&r2), b":3\r\n".to_vec());
    let range = db.handle_lrange(&b(b"l"), 0, -1, 0);
    assert_eq!(
        encode(&range),
        b"*3\r\n$1\r\na\r\n$1\r\nb\r\n$1\r\nc\r\n".to_vec()
    );
    let len = db.handle_llen(&b(b"l"), 0);
    assert_eq!(encode(&len), b":3\r\n".to_vec());
}

#[test]
fn lpush_prepends_in_turn() {
    let mut db = Db::new();
    let mut blocked = BlockedClients::new();
    db.handle_push(&b(b"l"), &vec![b(b"a"), b(b"b")], true, 0, &mut blocked);
    let range = db.handle_lrange(&b(b"l"), 0, -1, 0);
    assert_eq!(encode(&range), b"*2\r\n$1\r\nb\r\n$1\r\na\r\n".to_vec());
}

#[test]
fn lrange_negative_window() {
    let mut db = Db::new();
    let mut blocked = BlockedClients::new();
    db.handle_push(
        &b(b"l"),
        &vec![b(b"a"), b(b"b"), b(b"c"), b(b"d")],
        false,
        0,
        &mut blocked,
    );
    let r = db.handle_lrange(&b(b"l"), -2, -1, 0);
    assert_eq!(encode(&r), b"*2\r\n$1\r\nc\r\n$1\r\nd\r\n".to_vec());
    let empty = db.handle_lrange(&b(b"l"), 3, 1, 0);
    assert_eq!(encode(&empty), b"*0\r\n".to_vec());
}

#[test]
fn lpop_shapes() {
    let mut db = Db::new();
    let mut blocked = BlockedClients::new();
    db.handle_push(&b(b"l"), &vec![b(b"a"), b(b"b"), b(b"c")], false, 0, &mut blocked);
    let one = db.handle_lpop(&b(b"l"), None, 0);
    assert_eq!(encode(&one), b"$1\r\na\r\n".to_vec());
    let two = db.handle_lpop(&b(b"l"), Some(2), 0);
    assert_eq!(encode(&two), b"*2\r\n$1\r\nb\r\n$1\r\nc\r\n".to_vec());
    let none = db.handle_lpop(&b(b"l"), None, 0);
    assert_eq!(encode(&none), b"$-1\r\n".to_vec());
    let bad = db.handle_lpop(&b(b"l"), Some(-1), 0);
    assert_eq!(
        encode(&bad),
        b"-ERR value is out of range, must be positive\r\n".to_vec()
    );
    // an explicit count of zero pops nothing and answers the empty array
    db.handle_push(&b(b"l"), &vec![b(b"x")], false, 0, &mut blocked);
    let zero = db.handle_lpop(&b(b"l"), Some(0), 0);
    assert_eq!(encode(&zero), b"*0\r\n".to_vec());
    let still = db.handle_llen(&b(b"l"), 0);
    assert_eq!(encode(&still), b":1\r\n".to_vec());
}

#[test]
fn blpop_immediate_and_blocking_wake() {
    let mut db = Db::new();
    let mut blocked = BlockedClients::new();
    // empty list: client 7 blocks
    let r = db.handle_blpop(&b(b"q"), 7, 0, &mut blocked);
    assert!(r.is_none());
    // a push finds the waiter and hands it the element
    let (push_reply, wake) = db.handle_push(&b(b"q"), &vec![b(b"hello")], false, 0, &mut blocked);
    assert_eq!(encode(&push_reply), b":1\r\n".to_vec());
    let (client, key, value) = wake.unwrap();
    assert_eq!(client, 7);
    let woken = blpop_wake_reply(key, value);
    assert_eq!(
        encode(&woken),
        b"*2\r\n$1\r\nq\r\n$5\r\nhello\r\n".to_vec()
    );
    // the delivered element is gone from the stored list
    let len = db.handle_llen(&b(b"q"), 0);
    assert_eq!(encode(&len), b":0\r\n".to_vec());
}

#[test]
fn blpop_nonempty_pops_at_once() {
    let mut db = Db::new();
    let mut blocked = BlockedClients::new();
    db.handle_push(&b(b"q"), &vec![b(b"x")], false, 0, &mut blocked);
    let r = db.handle_blpop(&b(b"q"), 1, 0, &mut blocked).unwrap();
    assert_eq!(encode(&r), b"*2\r\n$1\r\nq\r\n$1\r\nx\r\n".to_vec());
}

fn score_of(s: &[u8]) -> Score {
    score_parse(&s.to_vec()).unwrap()
}

#[test]
fn zadd_orders_by_score_then_member() {
    let mut db = Db::new();
    assert_eq!(encode(&db.zadd(&b(b"z"), score_of(b"2"), &b(b"bee"), 0)), b":1\r\n".to_vec());
    assert_eq!(encode(&db.zadd(&b(b"z"), score_of(b"1"), &b(b"cat"), 0)), b":1\r\n".to_vec());
    assert_eq!(encode(&db.zadd(&b(b"z"), score_of(b"2"), &b(b"ant"), 0)), b":1\r\n".to_vec());
    let r = db.zrange(&b(b"z"), 0, -1, 0);
    assert_eq!(
        encode(&r),
        b"*3\r\n$3\r\ncat\r\n$3\r\nant\r\n$3\r\nbee\r\n".to_vec()
    );
}

#[test]
fn zadd_update_rescores() {
    let mut db = Db::new();
    db.zadd(&b(b"z"), score_of(b"1"), &b(b"m"), 0);
    let again = db.zadd(&b(b"z"), score_of(b"5"), &b(b"m"), 0);
    assert_eq!(encode(&again), b":0\r\n".to_vec());
    let s = db.zscore(&b(b"z"), &b(b"m"), 0);
    assert_eq!(encode(&s), b"$1\r\n5\r\n".to_vec());
    let card = db.zcard(&b(b"z"), 0);
    assert_eq!(encode(&card), b":1\r\n".to_vec());
}

#[test]
fn zrank_zrem() {
    let mut db = Db::new();
    db.zadd(&b(b"z"), score_of(b"1.5"), &b(b"a"), 0);
    db.zadd(&b(b"z"), score_of(b"2.5"), &b(b"b"), 0);
    assert_eq!(encode(&db.zrank(&b(b"z"), &b(b"b"), 0)), b":1\r\n".to_vec());
    assert_eq!(encode(&db.zrank(&b(b"z"), &b(b"nope"), 0)), b"$-1\r\n".to_vec());
    assert_eq!(encode(&db.zrem(&b(b"z"), &b(b"a"), 0)), b":1\r\n".to_vec());
    assert_eq!(encode(&db.zrem(&b(b"z"), &b(b"a"), 0)), b":0\r\n".to_vec());
    assert_eq!(encode(&db.zrank(&b(b"z"), &b(b"b"), 0)), b":0\r\n".to_vec());
}

#[test]
fn zscore_renders_canonically() {
    let mut db = Db::new();
    db.zadd(&b(b"z"), score_of(b"01.50"), &b(b"m"), 0);
    let s = db.zscore(&b(b"z"), &b(b"m"), 0);
    assert_eq!(encode(&s), b"$3\r\n1.5\r\n".to_vec());
}

#[test]
fn score_parse_and_format() {
    assert_eq!(score_format(&score_of(b"0")), b"0".to_vec());
    assert_eq!(score_format(&score_of(b"-0")), b"0".to_vec());
    assert_eq!(score_format(&score_of(b"10.250")), b"10.25".to_vec());
    assert_eq!(score_format(&score_of(b"-3.14")), b"-3.14".to_vec());
    assert!(score_parse(&b(b"")).is_none());
    assert!(score_parse(&b(b"1.")).is_none());
    assert!(score_parse(&b(b"abc")).is_none());
}

#[test]
fn score_ordering() {
    let lt = |a: &[u8], c: &[u8]| score_less(&score_of(a), &score_of(c));
    assert!(lt(b"1", b"2"));
    assert!(lt(b"-2", b"-1"));
    assert!(lt(b"-1", b"0"));
    assert!(lt(b"0.5", b"0.55"));
    assert!(lt(b"0.45", b"0.5"));
    assert!(!lt(b"2", b"2"));
    assert!(lt(b"-0.5", b"0.25"));
}
