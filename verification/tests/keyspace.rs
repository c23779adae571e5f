//! Keyspace behaviour: set/get round trips, expiry, deletion, INCR,
//! TYPE and KEYS.

use miniredis::resp::{RespValue, encode};
use miniredis::store::Db;

fn b(s: &[u8]) -> Vec<u8> {
    s.to_vec()
}

#[test]
fn set_then_get_returns_value_exactly() {
    let mut db = Db::new();
    let r = db.set_key(b(b"k"), b(b"v"), None, 0);
    assert_eq!(encode(&r), b"+OK\r\n".to_vec());
    let g = db.get_key(&b(b"k"), 0);
    assert_eq!(encode(&g), b"$1\r\nv\r\n".to_vec());
}

#[test]
fn get_binary_safe_value() {
    let mut db = Db::new();
    let payload = vec![0u8, 13, 10, 255, 42];
    db.set_key(b(b"bin"), payload.clone(), None, 0);
    let g = db.get_key(&b(b"bin"), 0);
    let mut expected = b"$5\r\n".to_vec();
    expected.extend_from_slice(&payload);
    expected.extend_from_slice(b"\r\n");
    assert_eq!(encode(&g), expected);
}

#[test]
fn get_missing_is_null_bulk() {
    let mut db = Db::new();
    let g = db.get_key(&b(b"nope"), 0);
    assert_eq!(encode(&g), b"$-1\r\n".to_vec());
}

#[test]
fn set_px_expires_on_the_clock() {
    let mut db = Db::new();
    let r = db.set_key(b(b"foo"), b(b"bar"), Some(100), 1000);
    assert_eq!(encode(&r), b"+OK\r\n".to_vec());
    // immediately: present
    let g1 = db.get_key(&b(b"foo"), 1000);
    assert_eq!(encode(&g1), b"$3\r\nbar\r\n".to_vec());
    // 200 ms later: observably absent, and deleted in place
    let g2 = db.get_key(&b(b"foo"), 1200);
    assert_eq!(encode(&g2), b"$-1\r\n".to_vec());
    let g3 = db.get_key(&b(b"foo"), 1200);
    assert_eq!(encode(&g3), b"$-1\r\n".to_vec());
}

#[test]
fn expired_key_reads_none_for_type() {
    let mut db = Db::new();
    db.set_key(b(b"foo"), b(b"bar"), Some(50), 0);
    let t1 = db.handle_type(&b(b"foo"), 10);
    assert_eq!(encode(&t1), b"+string\r\n".to_vec());
    let t2 = db.handle_type(&b(b"foo"), 60);
    assert_eq!(encode(&t2), b"+none\r\n".to_vec());
}

#[test]
fn set_twice_is_ok_both_times() {
    let mut db = Db::new();
    let r1 = db.set_key(b(b"k"), b(b"a"), None, 0);
    let r2 = db.set_key(b(b"k"), b(b"b"), None, 0);
    assert_eq!(encode(&r1), b"+OK\r\n".to_vec());
    assert_eq!(encode(&r2), b"+OK\r\n".to_vec());
    let g = db.get_key(&b(b"k"), 0);
    assert_eq!(encode(&g), b"$1\r\nb\r\n".to_vec());
}

#[test]
fn del_counts_then_zero() {
    let mut db = Db::new();
    db.set_key(b(b"k"), b(b"v"), None, 0);
    let keys = vec![b(b"k")];
    let d1 = db.del_key(&keys);
    assert_eq!(encode(&d1), b":1\r\n".to_vec());
    let d2 = db.del_key(&keys);
    assert_eq!(encode(&d2), b":0\r\n".to_vec());
}

#[test]
fn del_many_counts_existing_only() {
    let mut db = Db::new();
    db.set_key(b(b"a"), b(b"1"), None, 0);
    db.set_key(b(b"b"), b(b"2"), None, 0);
    let d = db.del_key(&vec![b(b"a"), b(b"missing"), b(b"b"), b(b"a")]);
    assert_eq!(encode(&d), b":2\r\n".to_vec());
}

#[test]
fn incr_creates_and_counts() {
    let mut db = Db::new();
    let r1 = db.incr_key(&b(b"counter"), 0);
    assert_eq!(encode(&r1), b":1\r\n".to_vec());
    let r2 = db.incr_key(&b(b"counter"), 0);
    assert_eq!(encode(&r2), b":2\r\n".to_vec());
    let g = db.get_key(&b(b"counter"), 0);
    assert_eq!(encode(&g), b"$1\r\n2\r\n".to_vec());
}

#[test]
fn incr_non_integer_errors() {
    let mut db = Db::new();
    db.set_key(b(b"k"), b(b"abc"), None, 0);
    let r = db.incr_key(&b(b"k"), 0);
    assert_eq!(
        encode(&r),
        b"-ERR value is not an integer or out of range\r\n".to_vec()
    );
}

#[test]
fn incr_negative_value() {
    let mut db = Db::new();
    db.set_key(b(b"k"), b(b"-3"), None, 0);
    let r = db.incr_key(&b(b"k"), 0);
    assert_eq!(encode(&r), b":-2\r\n".to_vec());
}

#[test]
fn wrongtype_on_get_of_list() {
    let mut db = Db::new();
    let mut blocked = miniredis::list::BlockedClients::new();
    db.handle_push(&b(b"l"), &vec![b(b"x")], false, 0, &mut blocked);
    let g = db.get_key(&b(b"l"), 0);
    assert_eq!(
        encode(&g),
        b"-WRONGTYPE Operation against a key holding the wrong kind of value\r\n".to_vec()
    );
}

#[test]
fn keys_matches_substring_and_star() {
    let mut db = Db::new();
    db.set_key(b(b"alpha"), b(b"1"), None, 0);
    db.set_key(b(b"beta"), b(b"2"), None, 0);
    let all = db.handle_key_search(&b(b"*"), 0);
    assert_eq!(
        encode(&all),
        b"*2\r\n$5\r\nalpha\r\n$4\r\nbeta\r\n".to_vec()
    );
    let some = db.handle_key_search(&b(b"eta"), 0);
    assert_eq!(encode(&some), b"*1\r\n$4\r\nbeta\r\n".to_vec());
    let none = db.handle_key_search(&b(b"zzz"), 0);
    assert_eq!(encode(&none), b"*0\r\n".to_vec());
}

#[test]
fn keys_hides_expired() {
    let mut db = Db::new();
    db.set_key(b(b"gone"), b(b"1"), Some(10), 0);
    db.set_key(b(b"kept"), b(b"2"), None, 0);
    let all = db.handle_key_search(&b(b"*"), 100);
    assert_eq!(encode(&all), b"*1\r\n$4\r\nkept\r\n".to_vec());
}
