//! The snapshot reader, the startup defaults, the geographic bounds,
//! and the trusted wrappers exercised through public functions.

use miniredis::cli::{Cli, getargs};
use miniredis::rdb::{RdbError, parse_rdb, read_length, read_string};
use miniredis::resp::encode;
use miniredis::score::score_parse;
use miniredis::store::Db;

fn b(s: &[u8]) -> Vec<u8> {
    s.to_vec()
}

fn snapshot(body: &[u8]) -> Vec<u8> {
    let mut s = b"REDIS0011".to_vec();
    s.extend_from_slice(body);
    s
}

#[test]
fn parse_plain_string_record() {
    // 0x00, key "k" (len 1), value "vv" (len 2), then end
    let data = snapshot(&[0x00, 0x01, b'k', 0x02, b'v', b'v', 0xFF]);
    let entries = parse_rdb(&data).unwrap();
    assert_eq!(entries.len(), 1);
    assert_eq!(entries[0].key, b"k".to_vec());
    assert_eq!(entries[0].value, b"vv".to_vec());
    assert!(entries[0].expiry_wall_ms.is_none());
}

#[test]
fn parse_expiry_records() {
    // 0xFD: four-byte seconds stamp, then a typed record
    let data = snapshot(&[
        0xFD, 10, 0, 0, 0, 0x00, 0x01, b'a', 0x01, b'1', //
        0xFC, 0x10, 0x27, 0, 0, 0, 0, 0, 0, 0x00, 0x01, b'b', 0x01, b'2', //
        0xFF,
    ]);
    let entries = parse_rdb(&data).unwrap();
    assert_eq!(entries.len(), 2);
    assert_eq!(entries[0].expiry_wall_ms, Some(10_000));
    assert_eq!(entries[1].expiry_wall_ms, Some(10_000));
}

#[test]
fn parse_metadata_and_selector() {
    let data = snapshot(&[
        0xFA, 0x01, b'n', 0x01, b'v', // metadata pair
        0xFE, 0x00, // selector
        0xFB, 0x01, 0x00, // sizes
        0x00, 0x01, b'k', 0x01, b'v', //
        0xFF,
    ]);
    let entries = parse_rdb(&data).unwrap();
    assert_eq!(entries.len(), 1);
}

#[test]
fn parse_rejects_bad_magic_and_unknown_opcode() {
    assert!(matches!(parse_rdb(&b(b"NOPE00110")), Err(RdbError::BadMagic)));
    assert!(matches!(parse_rdb(&b(b"RED")), Err(RdbError::BadMagic)));
    let data = snapshot(&[0x42]);
    assert!(matches!(parse_rdb(&data), Err(RdbError::Unsupported)));
}

#[test]
fn read_length_widths() {
    let d = b(&[0x0A]);
    assert_eq!(read_length(&d, 0).unwrap(), (10, 1));
    let d2 = b(&[0x41, 0x02]);
    assert_eq!(read_length(&d2, 0).unwrap(), (258, 2));
    let d3 = b(&[0x80, 0, 0, 1, 0]);
    assert_eq!(read_length(&d3, 0).unwrap(), (256, 5));
}

#[test]
fn read_string_integer_forms() {
    // 8-bit integer -2 renders as decimal text
    let d = b(&[0xC0, 0xFE]);
    let (s, p) = read_string(&d, 0).unwrap();
    assert_eq!(s, b"-2".to_vec());
    assert_eq!(p, 2);
    // 16-bit little-endian 500
    let d2 = b(&[0xC1, 0xF4, 0x01]);
    let (s2, _) = read_string(&d2, 0).unwrap();
    assert_eq!(s2, b"500".to_vec());
}

#[test]
fn load_snapshot_drops_expired() {
    let data = snapshot(&[
        0xFD, 1, 0, 0, 0, 0x00, 0x04, b'g', b'o', b'n', b'e', 0x01, b'1', //
        0x00, 0x04, b'k', b'e', b'p', b't', 0x01, b'2', //
        0xFF,
    ]);
    let entries = parse_rdb(&data).unwrap();
    let mut db = Db::new();
    // the wall clock is already past the one-second stamp
    db.load_snapshot(&entries, 5_000, 0);
    assert_eq!(encode(&db.get_key(&b(b"gone"), 0)), b"$-1\r\n".to_vec());
    assert_eq!(encode(&db.get_key(&b(b"kept"), 0)), b"$1\r\n2\r\n".to_vec());
}

#[test]
fn truncated_records_error() {
    // expiry stamp cut short
    let data = snapshot(&[0xFD, 1, 0]);
    assert!(matches!(parse_rdb(&data), Err(RdbError::Truncated)));
    // length field out of range
    let d = b(&[0x41]);
    assert!(read_length(&d, 0).is_err());
    assert!(read_length(&d, 9).is_err());
    // string body longer than the buffer
    let d2 = b(&[0x05, b'a', b'b']);
    assert!(read_string(&d2, 0).is_err());
}

#[test]
fn getargs_defaults() {
    let (dir, file, port, replicaof) = getargs(Cli {
        dir: None,
        dbfilename: None,
        port: None,
        replicaof: None,
    });
    assert_eq!(dir, b".".to_vec());
    assert_eq!(file, b"dump.rdb".to_vec());
    assert_eq!(port, b"6379".to_vec());
    assert_eq!(replicaof, Vec::<u8>::new());
    let (d2, _, p2, r2) = getargs(Cli {
        dir: Some(b(b"/tmp")),
        dbfilename: None,
        port: Some(b(b"7000")),
        replicaof: Some(b(b"localhost 6379")),
    });
    assert_eq!(d2, b"/tmp".to_vec());
    assert_eq!(p2, b"7000".to_vec());
    assert_eq!(r2, b"localhost 6379".to_vec());
}

#[test]
fn geo_bounds() {
    let ok_lat = score_parse(&b(b"51.506479")).unwrap();
    assert!(miniredis::geo::lat_in_range(&ok_lat));
    let edge = score_parse(&b(b"85.05112878")).unwrap();
    assert!(miniredis::geo::lat_in_range(&edge));
    let over = score_parse(&b(b"85.05112879")).unwrap();
    assert!(!miniredis::geo::lat_in_range(&over));
    let lon = score_parse(&b(b"180")).unwrap();
    assert!(miniredis::geo::lon_in_range(&lon));
    let lon_over = score_parse(&b(b"180.1")).unwrap();
    assert!(!miniredis::geo::lon_in_range(&lon_over));
}

#[test]
fn geo_bad_pair_message() {
    let lon = score_parse(&b(b"200")).unwrap();
    let lat = score_parse(&b(b"51.5")).unwrap();
    let r = miniredis::geo::bad_coords_reply(&lon, &lat);
    assert_eq!(
        encode(&r),
        b"-ERR invalid longitude,latitude pair 200.000000,51.500000\r\n".to_vec()
    );
}

#[test]
fn sha256_and_hex_wrappers_do_real_work() {
    // SHA-256 of "abc", a published vector, through the trusted wrappers
    let digest = miniredis::trusted::sha256(&b(b"abc"));
    let hexed = miniredis::trusted::hex_lower(&digest);
    assert_eq!(
        hexed,
        b"ba7816bf8f01cfea414140de5dae2223b00361a396177a9cb410ff61f20015ad".to_vec()
    );
}

#[test]
fn replication_id_shape() {
    let id = miniredis::repl::gen_replication_id();
    assert_eq!(id.len(), 40);
    assert!(id.iter().all(|c| c.is_ascii_alphanumeric()));
}

#[test]
fn empty_rdb_payload_is_a_snapshot() {
    let payload = miniredis::trusted::empty_rdb_payload();
    assert_eq!(payload.len(), 88);
    assert!(payload.starts_with(b"REDIS0011"));
}

#[test]
fn fullresync_payload_header() {
    let p = miniredis::repl::fullresync_payload();
    assert!(p.starts_with(b"$88\r\n"));
    assert_eq!(p.len(), 5 + 88);
    // deliberately no trailing CRLF after the image
    assert!(!p.ends_with(b"\r\n"));
}

#[test]
fn timeout_parsing_ms() {
    assert_eq!(miniredis::dispatch::timeout_ms_from_bytes(&b(b"5")), 5000);
    assert_eq!(miniredis::dispatch::timeout_ms_from_bytes(&b(b"0.1")), 100);
    assert_eq!(miniredis::dispatch::timeout_ms_from_bytes(&b(b"0")), 0);
    assert_eq!(miniredis::dispatch::timeout_ms_from_bytes(&b(b"junk")), 0);
}
