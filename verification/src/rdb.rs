//! The snapshot reader: the `REDIS<vv>` magic, then a stream of op-codes
//! carrying metadata, selectors, sizes, expiry stamps and string
//! key/value pairs, up to the end marker.  Parsing is pure byte logic;
//! loading the parsed entries into a keyspace converts wall-clock expiry
//! stamps to the monotonic clock and drops entries already expired.

use vstd::prelude::*;
use vstd::string::StringSliceAdditionalSpecFns;

use crate::bytesutil::spec_i64_digits;
use crate::store::Db;
use crate::store::KeyWithExpiry;
use crate::store::ValueType;
use crate::store::assoc_get;

verus! {

/// Why a snapshot failed to parse.
#[derive(Debug)]
pub enum RdbError {
    /// The `REDIS` magic or the version field is missing.
    BadMagic,
    /// The file ends inside a record.
    Truncated,
    /// An op-code or an encoding this reader does not know.
    Unsupported,
}

/// One parsed record: key, string value, optional wall-clock expiry in
/// milliseconds.
pub struct RdbEntry {
    pub key: Vec<u8>,
    pub value: Vec<u8>,
    pub expiry_wall_ms: Option<u64>,
}

/// The length field at `pos`: its value and the following position.
/// The top two bits pick the width; the special form returns the whole
/// leading byte as the value.
pub open spec fn spec_read_length(s: Seq<u8>, pos: int) -> Option<(nat, int)> {
    if !(0 <= pos < s.len()) {
        None
    } else {
        let b = s[pos];
        let kind = b / 64;
        if kind == 0 {
            Some((((b as nat) % 64), pos + 1))
        } else if kind == 1 {
            if pos + 1 < s.len() {
                Some(((((b as nat) % 64) * 256 + s[pos + 1] as nat), pos + 2))
            } else {
                None
            }
        } else if kind == 2 {
            if pos + 4 < s.len() {
                Some(
                    ((s[pos + 1] as nat * 0x1000000 + s[pos + 2] as nat * 0x10000 + s[pos
                        + 3] as nat * 0x100 + s[pos + 4] as nat), pos + 5),
                )
            } else {
                None
            }
        } else {
            Some(((b as nat), pos + 1))
        }
    }
}

/// The two's-complement value of a little-endian byte pair.
pub open spec fn spec_i16_le(lo: u8, hi: u8) -> int {
    let raw = hi as int * 256 + lo;
    if raw >= 0x8000 {
        raw - 0x10000
    } else {
        raw
    }
}

/// The two's-complement value of a little-endian byte quadruple.
pub open spec fn spec_i32_le(b0: u8, b1: u8, b2: u8, b3: u8) -> int {
    let raw = b3 as int * 0x1000000 + b2 as int * 0x10000 + b1 as int * 0x100 + b0;
    if raw >= 0x8000_0000 {
        raw - 0x1_0000_0000
    } else {
        raw
    }
}

/// The string at `pos`: its bytes and the following position.  Integer
/// encodings render as decimal text.
pub open spec fn spec_read_string(s: Seq<u8>, pos: int) -> Option<(Seq<u8>, int)> {
    if !(0 <= pos < s.len()) {
        None
    } else {
        let b = s[pos];
        if b / 64 == 3 {
            let form = b % 64;
            if form == 0 {
                if pos + 1 < s.len() {
                    Some((spec_i64_digits(s[pos + 1] as i8 as int), pos + 2))
                } else {
                    None
                }
            } else if form == 1 {
                if pos + 2 < s.len() {
                    Some((spec_i64_digits(spec_i16_le(s[pos + 1], s[pos + 2])), pos + 3))
                } else {
                    None
                }
            } else if form == 2 {
                if pos + 4 < s.len() {
                    Some(
                        (
                            spec_i64_digits(
                                spec_i32_le(s[pos + 1], s[pos + 2], s[pos + 3], s[pos + 4]),
                            ),
                            pos + 5,
                        ),
                    )
                } else {
                    None
                }
            } else {
                None
            }
        } else {
            match spec_read_length(s, pos) {
                None => None,
                Some((len, p2)) => {
                    if p2 + len <= s.len() {
                        Some((s.subrange(p2, p2 + len), p2 + len))
                    } else {
                        None
                    }
                },
            }
        }
    }
}

/// Read a length field.
pub fn read_length(contents: &Vec<u8>, pos: usize) -> (r: Result<(usize, usize), RdbError>)
    ensures
        match r {
            Ok(p) => spec_read_length(contents@, pos as int) == Some((p.0 as nat, p.1 as int))
                && p.1 <= contents@.len(),
            Err(_) => spec_read_length(contents@, pos as int) is None,
        },
{
    if pos >= contents.len() {
        return Err(RdbError::Truncated);
    }
    let b = contents[pos];
    let kind = b / 64;
    if kind == 0 {
        Ok(((b % 64) as usize, pos + 1))
    } else if kind == 1 {
        if contents.len() - pos > 1 {
            Ok((((b % 64) as usize) * 256 + contents[pos + 1] as usize, pos + 2))
        } else {
            Err(RdbError::Truncated)
        }
    } else if kind == 2 {
        if contents.len() - pos > 4 {
            let v: usize = contents[pos + 1] as usize * 0x1000000 + contents[pos + 2] as usize
                * 0x10000 + contents[pos + 3] as usize * 0x100 + contents[pos + 4] as usize;
            Ok((v, pos + 5))
        } else {
            Err(RdbError::Truncated)
        }
    } else {
        Ok((b as usize, pos + 1))
    }
}

/// Read a string field.
pub fn read_string(contents: &Vec<u8>, pos: usize) -> (r: Result<(Vec<u8>, usize), RdbError>)
    ensures
        match r {
            Ok(p) => (spec_read_string(contents@, pos as int) matches Some(q) && q.0 == p.0@
                && q.1 == p.1 as int) && p.1 <= contents@.len(),
            Err(_) => spec_read_string(contents@, pos as int) is None,
        },
{
    if pos >= contents.len() {
        return Err(RdbError::Truncated);
    }
    let b = contents[pos];
    if b / 64 == 3 {
        let form = b % 64;
        if form == 0 {
            if contents.len() - pos > 1 {
                let v = contents[pos + 1] as i8;
                Ok((crate::bytesutil::i64_to_dec(v as i64), pos + 2))
            } else {
                Err(RdbError::Truncated)
            }
        } else if form == 1 {
            if contents.len() - pos > 2 {
                let raw: u32 = contents[pos + 2] as u32 * 256 + contents[pos + 1] as u32;
                let v: i64 = if raw >= 0x8000 {
                    raw as i64 - 0x10000
                } else {
                    raw as i64
                };
                Ok((crate::bytesutil::i64_to_dec(v), pos + 3))
            } else {
                Err(RdbError::Truncated)
            }
        } else if form == 2 {
            if contents.len() - pos > 4 {
                let raw: u64 = contents[pos + 4] as u64 * 0x1000000 + contents[pos + 3] as u64
                    * 0x10000 + contents[pos + 2] as u64 * 0x100 + contents[pos + 1] as u64;
                let v: i64 = if raw >= 0x8000_0000 {
                    raw as i64 - 0x1_0000_0000
                } else {
                    raw as i64
                };
                Ok((crate::bytesutil::i64_to_dec(v), pos + 5))
            } else {
                Err(RdbError::Truncated)
            }
        } else {
            Err(RdbError::Unsupported)
        }
    } else {
        match read_length(contents, pos) {
            Err(e) => Err(e),
            Ok((len, p2)) => {
                if len <= contents.len() - p2 {
                    let mut out: Vec<u8> = Vec::new();
                    let mut i: usize = p2;
                    while i < p2 + len
                        invariant
                            contents@.len() <= usize::MAX,
                            p2 + len <= contents@.len(),
                            p2 <= i <= p2 + len,
                            out@ =~= contents@.subrange(p2 as int, i as int),
                        decreases p2 + len - i,
                    {
                        out.push(contents[i]);
                        i += 1;
                    }
                    proof {
                        assert(out@ =~= contents@.subrange(p2 as int, p2 as int + len as int));
                    }
                    Ok((out, p2 + len))
                } else {
                    Err(RdbError::Truncated)
                }
            },
        }
    }
}

/// The typed key/value record at `pos` (only string values are known).
pub open spec fn spec_read_kv(s: Seq<u8>, pos: int) -> Option<(Seq<u8>, Seq<u8>, int)> {
    if !(0 <= pos < s.len()) || s[pos] != 0 {
        None
    } else {
        match spec_read_string(s, pos + 1) {
            None => None,
            Some((k, p1)) => match spec_read_string(s, p1) {
                None => None,
                Some((v, p2)) => Some((k, v, p2)),
            },
        }
    }
}

/// Read a typed key/value record.
pub fn read_key_value_pair(contents: &Vec<u8>, pos: usize) -> (r: Result<
    (Vec<u8>, Vec<u8>, usize),
    RdbError,
>)
    ensures
        match r {
            Ok(p) => (spec_read_kv(contents@, pos as int) matches Some(q) && q.0 == p.0@ && q.1
                == p.1@ && q.2 == p.2 as int) && p.2 <= contents@.len(),
            Err(_) => spec_read_kv(contents@, pos as int) is None,
        },
{
    if pos >= contents.len() {
        return Err(RdbError::Truncated);
    }
    if contents[pos] != 0 {
        return Err(RdbError::Unsupported);
    }
    match read_string(contents, pos + 1) {
        Err(e) => Err(e),
        Ok((k, p1)) => {
            match read_string(contents, p1) {
                Err(e) => Err(e),
                Ok((v, p2)) => Ok((k, v, p2)),
            }
        },
    }
}

/// The monotonic deadline a live wall-clock stamp converts to,
/// saturating at the top of the clock.
pub open spec fn spec_mono_deadline(d: u64, now_wall: u64, now_mono: u64) -> u64 {
    if d - now_wall > u64::MAX - now_mono {
        u64::MAX
    } else {
        (now_mono + (d - now_wall)) as u64
    }
}

/// The binding a run of snapshot records leaves for key `k`: the last
/// record carrying `k` wins if it has no stamp or a live one (with the
/// stamp converted to the monotonic clock); a dead last record defers
/// to the records before it; no record leaves the key alone.
pub open spec fn spec_loaded_binding(
    recs: Seq<RdbEntry>,
    k: Seq<u8>,
    now_wall: u64,
    now_mono: u64,
) -> Option<(Seq<u8>, Option<u64>)>
    decreases recs.len(),
{
    if recs.len() == 0 {
        None
    } else {
        let last = recs.last();
        let prev = spec_loaded_binding(recs.drop_last(), k, now_wall, now_mono);
        if last.key@ == k {
            match last.expiry_wall_ms {
                None => Some((last.value@, None)),
                Some(d) => if d > now_wall {
                    Some((last.value@, Some(spec_mono_deadline(d, now_wall, now_mono))))
                } else {
                    prev
                },
            }
        } else {
            prev
        }
    }
}

impl Db {
    /// Load parsed snapshot records at boot: each key ends up bound as
    /// [`spec_loaded_binding`] says — the last live record for it wins,
    /// with its wall-clock stamp converted to the monotonic clock, and
    /// records already expired are dropped; every other key is
    /// untouched.
    pub fn load_snapshot(
        &mut self,
        entries: &Vec<RdbEntry>,
        now_wall_ms: u64,
        now_mono_ms: u64,
    )
        requires
            old(self).wf(),
        ensures
            final(self).wf(),
            forall|k2: Seq<u8>|
                #![trigger assoc_get(final(self).entries@, k2)]
                match spec_loaded_binding(entries@, k2, now_wall_ms, now_mono_ms) {
                    Some(b) => assoc_get(final(self).entries@, k2) matches Some(en) && (en.value
                        matches ValueType::Str(v) && v@ == b.0) && en.expiry == b.1,
                    None => assoc_get(final(self).entries@, k2) == assoc_get(
                        old(self).entries@,
                        k2,
                    ),
                },
    {
        let ghost recs = entries@;
        let mut i: usize = 0;
        proof {
            assert(recs.subrange(0, 0) =~= Seq::<RdbEntry>::empty());
        }
        while i < entries.len()
            invariant
                self.wf(),
                recs == entries@,
                i <= recs.len(),
                forall|k2: Seq<u8>|
                    #![trigger assoc_get(self.entries@, k2)]
                    match spec_loaded_binding(
                        recs.subrange(0, i as int),
                        k2,
                        now_wall_ms,
                        now_mono_ms,
                    ) {
                        Some(b) => assoc_get(self.entries@, k2) matches Some(en) && (en.value
                            matches ValueType::Str(v) && v@ == b.0) && en.expiry == b.1,
                        None => assoc_get(self.entries@, k2) == assoc_get(
                            old(self).entries@,
                            k2,
                        ),
                    },
            decreases recs.len() - i,
        {
            let ghost pre = recs.subrange(0, i as int);
            let ghost post = recs.subrange(0, i as int + 1);
            proof {
                assert(post.last() == recs[i as int]);
                assert(post.drop_last() =~= pre);
            }
            let e = &entries[i];
            match e.expiry_wall_ms {
                None => {
                    self.upsert(
                        crate::bytesutil::bytes_clone(&e.key),
                        KeyWithExpiry {
                            value: ValueType::Str(crate::bytesutil::bytes_clone(&e.value)),
                            expiry: None,
                        },
                    );
                    proof {
                        assert(recs[i as int].key@ == e.key@);
                    }
                },
                Some(deadline) => {
                    if deadline > now_wall_ms {
                        let remaining = deadline - now_wall_ms;
                        let mono = if remaining > u64::MAX - now_mono_ms {
                            u64::MAX
                        } else {
                            now_mono_ms + remaining
                        };
                        self.upsert(
                            crate::bytesutil::bytes_clone(&e.key),
                            KeyWithExpiry {
                                value: ValueType::Str(crate::bytesutil::bytes_clone(&e.value)),
                                expiry: Some(mono),
                            },
                        );
                        proof {
                            assert(recs[i as int].key@ == e.key@);
                            assert(mono == spec_mono_deadline(
                                deadline,
                                now_wall_ms,
                                now_mono_ms,
                            ));
                        }
                    }
                },
            }
            i += 1;
        }
        proof {
            assert(recs.subrange(0, recs.len() as int) =~= recs);
        }
    }
}


/// The record views of parsed entries.
pub open spec fn rdb_views(es: Seq<RdbEntry>) -> Seq<(Seq<u8>, Seq<u8>, Option<u64>)>
    decreases es.len(),
{
    if es.len() == 0 {
        Seq::empty()
    } else {
        seq![(es[0].key@, es[0].value@, es[0].expiry_wall_ms)] + rdb_views(
            es.subrange(1, es.len() as int),
        )
    }
}

/// The record views, pointwise.
pub proof fn lemma_rdb_views(es: Seq<RdbEntry>)
    ensures
        rdb_views(es).len() == es.len(),
        forall|i: int|
            0 <= i < es.len() ==> rdb_views(es)[i] == ((#[trigger] es[i]).key@, es[i].value@,
            es[i].expiry_wall_ms),
    decreases es.len(),
{
    if es.len() > 0 {
        let rest = es.subrange(1, es.len() as int);
        lemma_rdb_views(rest);
        assert forall|i: int| 0 <= i < es.len() implies rdb_views(es)[i] == ((
        #[trigger] es[i]).key@, es[i].value@, es[i].expiry_wall_ms) by {
            if i > 0 {
                assert(rest[i - 1] == es[i]);
            }
        }
    }
}

/// The op-code walk from `pos`: the string records (with their
/// wall-clock stamps) up to the end marker, or nothing when an op-code
/// is unknown or a record is cut short.
#[verifier::opaque]
pub open spec fn spec_rdb_records(s: Seq<u8>, pos: int) -> Option<
    Seq<(Seq<u8>, Seq<u8>, Option<u64>)>,
>
    decreases s.len() - pos,
{
    if pos < 0 || pos >= s.len() {
        Some(Seq::empty())
    } else {
        let op = s[pos];
        let p1 = pos + 1;
        if op == 0xFF {
            Some(Seq::empty())
        } else if op == 0xFA {
            match spec_read_string(s, p1) {
                None => None,
                Some((_k, q1)) => match spec_read_string(s, q1) {
                    None => None,
                    Some((_v, q2)) => if q2 > p1 && q2 <= s.len() {
                        spec_rdb_records(s, q2)
                    } else {
                        None
                    },
                },
            }
        } else if op == 0xFE {
            match spec_read_length(s, p1) {
                None => None,
                Some((_n, q1)) => if q1 > p1 && q1 <= s.len() {
                    spec_rdb_records(s, q1)
                } else {
                    None
                },
            }
        } else if op == 0xFB {
            match spec_read_length(s, p1) {
                None => None,
                Some((_a, q1)) => match spec_read_length(s, q1) {
                    None => None,
                    Some((_b, q2)) => if q2 > p1 && q2 <= s.len() {
                        spec_rdb_records(s, q2)
                    } else {
                        None
                    },
                },
            }
        } else if op == 0xFD {
            if s.len() - p1 < 4 {
                None
            } else {
                let secs = s[p1] as nat + s[p1 + 1] as nat * 0x100 + s[p1 + 2] as nat * 0x10000
                    + s[p1 + 3] as nat * 0x1000000;
                match spec_read_kv(s, p1 + 4) {
                    None => None,
                    Some((k, v, q)) => if q > p1 && q <= s.len() {
                        match spec_rdb_records(s, q) {
                            None => None,
                            Some(rest) => Some(
                                seq![(k, v, Some((secs * 1000) as u64))] + rest,
                            ),
                        }
                    } else {
                        None
                    },
                }
            }
        } else if op == 0xFC {
            if s.len() - p1 < 8 {
                None
            } else {
                let ms = s[p1] as nat + s[p1 + 1] as nat * 0x100 + s[p1 + 2] as nat * 0x10000
                    + s[p1 + 3] as nat * 0x1000000 + s[p1 + 4] as nat * 0x100000000 + s[p1
                    + 5] as nat * 0x10000000000 + s[p1 + 6] as nat * 0x1000000000000 + s[p1
                    + 7] as nat * 0x100000000000000;
                match spec_read_kv(s, p1 + 8) {
                    None => None,
                    Some((k, v, q)) => if q > p1 && q <= s.len() {
                        match spec_rdb_records(s, q) {
                            None => None,
                            Some(rest) => Some(seq![(k, v, Some(ms as u64))] + rest),
                        }
                    } else {
                        None
                    },
                }
            }
        } else if op == 0x00 {
            match spec_read_string(s, p1) {
                None => None,
                Some((k, q1)) => match spec_read_string(s, q1) {
                    None => None,
                    Some((v, q2)) => if q2 > p1 && q2 <= s.len() {
                        match spec_rdb_records(s, q2) {
                            None => None,
                            Some(rest) => Some(seq![(k, v, Option::<u64>::None)] + rest),
                        }
                    } else {
                        None
                    },
                },
            }
        } else {
            None
        }
    }
}

/// Parse a whole snapshot: check the `REDIS` magic and the version
/// field, then walk the op-codes to the end marker.  The result is
/// exactly what [`spec_rdb_records`] reads from position nine: the
/// string records with their expiry stamps, or an error on a bad
/// magic, an unknown op-code, or a record cut short.
/// One op-code step of the snapshot walk at `pos0`: skip a metadata,
/// selector or size record, collect a string record, report the end
/// marker, or fail exactly when [`spec_rdb_records`] reads nothing.
#[verifier::rlimit(100)]
#[verifier::spinoff_prover]
fn rdb_step(contents: &Vec<u8>, pos0: usize, out: &mut Vec<RdbEntry>) -> (r: Result<
    (usize, bool),
    RdbError,
>)
    requires
        9 <= pos0 < contents@.len(),
    ensures
        final(out)@.len() >= old(out)@.len(),
        final(out)@.subrange(0, old(out)@.len() as int) == old(out)@,
        ({
            let s = contents@;
            match r {
                Err(_) => spec_rdb_records(s, pos0 as int) is None,
                Ok(p) => {
                    if p.1 {
                        &&& spec_rdb_records(s, pos0 as int) == Some(Seq::<
                            (Seq<u8>, Seq<u8>, Option<u64>),
                        >::empty())
                        &&& final(out)@ == old(out)@
                    } else {
                        &&& pos0 < p.0 <= s.len()
                        &&& spec_rdb_records(s, pos0 as int) == (match spec_rdb_records(
                            s,
                            p.0 as int,
                        ) {
                            Some(rest) => Some(
                                rdb_views(
                                    final(out)@.subrange(
                                        old(out)@.len() as int,
                                        final(out)@.len() as int,
                                    ),
                                ) + rest,
                            ),
                            None => Option::<Seq<(Seq<u8>, Seq<u8>, Option<u64>)>>::None,
                        })
                    }
                },
            }
        }),
{
    let n = contents.len();
    let ghost s = contents@;
    let ghost out0 = out@;
    proof {
        reveal(spec_rdb_records);
        assert(s.len() == n);
        assert(out0.subrange(0, out0.len() as int) =~= out0);
        assert(out0.subrange(out0.len() as int, out0.len() as int) =~= Seq::<RdbEntry>::empty());
        assert(rdb_views(Seq::<RdbEntry>::empty()) == Seq::<
            (Seq<u8>, Seq<u8>, Option<u64>),
        >::empty());
    }
        let op = contents[pos0];
        let pos = pos0 + 1;
        if op == 0xFA {
            match read_string(contents, pos) {
                Err(e) => {
                    return Err(e);
                },
                Ok((_, p1)) => {
                    match read_string(contents, p1) {
                        Err(e) => {
                            return Err(e);
                        },
                        Ok((_, p2)) => {
                            if p2 <= pos {
                                return Err(RdbError::Unsupported);
                            }
                            return Ok((p2, false));
                        },
                    }
                },
            }
        } else if op == 0xFE {
            match read_length(contents, pos) {
                Err(e) => {
                    return Err(e);
                },
                Ok((_, p1)) => {
                    if p1 <= pos {
                        return Err(RdbError::Unsupported);
                    }
                    return Ok((p1, false));
                },
            }
        } else if op == 0xFB {
            match read_length(contents, pos) {
                Err(e) => {
                    return Err(e);
                },
                Ok((_, p1)) => {
                    match read_length(contents, p1) {
                        Err(e) => {
                            return Err(e);
                        },
                        Ok((_, p2)) => {
                            if p2 <= pos {
                                return Err(RdbError::Unsupported);
                            }
                            return Ok((p2, false));
                        },
                    }
                },
            }
        } else if op == 0xFD {
            if contents.len() - pos < 4 {
                return Err(RdbError::Truncated);
            }
            let secs: u64 = contents[pos] as u64 + contents[pos + 1] as u64 * 0x100 + contents[pos
                + 2] as u64 * 0x10000 + contents[pos + 3] as u64 * 0x1000000;
            let after = pos + 4;
            match read_key_value_pair(contents, after) {
                Err(e) => {
                    return Err(e);
                },
                Ok((k, v, p2)) => {
                    if p2 <= pos {
                        return Err(RdbError::Unsupported);
                    }
                    let entry = RdbEntry { key: k, value: v, expiry_wall_ms: Some(secs * 1000) };
                    proof {
                        lemma_views_push(out0, entry);
                    }
                    out.push(entry);
                    proof {
                        assert(out@.subrange(0, out0.len() as int) =~= out0);
                        assert(out@.subrange(out0.len() as int, out@.len() as int) =~= seq![
                            entry,
                        ]);
                        assert(seq![entry].subrange(1, 1) =~= Seq::<RdbEntry>::empty());
                        assert(rdb_views(seq![entry]) =~= seq![
                            (entry.key@, entry.value@, entry.expiry_wall_ms),
                        ]);
                    }
                    return Ok((p2, false));
                },
            }
        } else if op == 0xFC {
            if contents.len() - pos < 8 {
                return Err(RdbError::Truncated);
            }
            let ms: u64 = contents[pos] as u64 + contents[pos + 1] as u64 * 0x100 + contents[pos
                + 2] as u64 * 0x10000 + contents[pos + 3] as u64 * 0x1000000 + contents[pos
                + 4] as u64 * 0x100000000 + contents[pos + 5] as u64 * 0x10000000000
                + contents[pos + 6] as u64 * 0x1000000000000 + contents[pos + 7] as u64
                * 0x100000000000000;
            let after = pos + 8;
            match read_key_value_pair(contents, after) {
                Err(e) => {
                    return Err(e);
                },
                Ok((k, v, p2)) => {
                    if p2 <= pos {
                        return Err(RdbError::Unsupported);
                    }
                    let entry = RdbEntry { key: k, value: v, expiry_wall_ms: Some(ms) };
                    proof {
                        lemma_views_push(out0, entry);
                    }
                    out.push(entry);
                    proof {
                        assert(out@.subrange(0, out0.len() as int) =~= out0);
                        assert(out@.subrange(out0.len() as int, out@.len() as int) =~= seq![
                            entry,
                        ]);
                        assert(seq![entry].subrange(1, 1) =~= Seq::<RdbEntry>::empty());
                        assert(rdb_views(seq![entry]) =~= seq![
                            (entry.key@, entry.value@, entry.expiry_wall_ms),
                        ]);
                    }
                    return Ok((p2, false));
                },
            }
        } else if op == 0xFF {
            return Ok((pos, true));
        } else if op == 0x00 {
            match read_string(contents, pos) {
                Err(e) => {
                    return Err(e);
                },
                Ok((k, p1)) => {
                    match read_string(contents, p1) {
                        Err(e) => {
                            return Err(e);
                        },
                        Ok((v, p2)) => {
                            if p2 <= pos {
                                return Err(RdbError::Unsupported);
                            }
                                    let entry = RdbEntry { key: k, value: v, expiry_wall_ms: None };
                            proof {
                                lemma_views_push(out0, entry);
                            }
                            out.push(entry);
                            proof {
                                assert(out@.subrange(0, out0.len() as int) =~= out0);
                                assert(out@.subrange(out0.len() as int, out@.len() as int) =~= seq![
                                    entry,
                                ]);
                                assert(seq![entry].subrange(1, 1) =~= Seq::<RdbEntry>::empty());
                                assert(rdb_views(seq![entry]) =~= seq![
                                    (entry.key@, entry.value@, entry.expiry_wall_ms),
                                ]);
                            }
                            return Ok((p2, false));
                        },
                    }
                },
            }
        } else {
            return Err(RdbError::Unsupported);
        }
}

/// Parse a whole snapshot: check the `REDIS` magic and the version
/// field, then walk the op-codes to the end marker.  The result is
/// exactly what [`spec_rdb_records`] reads from position nine: the
/// string records with their expiry stamps, or an error on a bad
/// magic, an unknown op-code, or a record cut short.
#[verifier::rlimit(100)]
#[verifier::spinoff_prover]
pub fn parse_rdb(contents: &Vec<u8>) -> (r: Result<Vec<RdbEntry>, RdbError>)
    ensures
        ({
            let s = contents@;
            let ok_header = s.len() >= 9 && s.subrange(0, 5) == seq![82u8, 69u8, 68u8, 73u8, 83u8];
            &&& (!ok_header ==> r is Err)
            &&& (ok_header ==> match spec_rdb_records(s, 9) {
                Some(recs) => r matches Ok(es) && rdb_views(es@) == recs,
                None => r is Err,
            })
        }),
{
    let ghost s = contents@;
    if contents.len() < 9 {
        return Err(RdbError::BadMagic);
    }
    if contents[0] != 82 || contents[1] != 69 || contents[2] != 68 || contents[3] != 73
        || contents[4] != 83 {
        proof {
            if s.subrange(0, 5) == seq![82u8, 69u8, 68u8, 73u8, 83u8] {
                assert(s.subrange(0, 5)[0] == s[0]);
                assert(s.subrange(0, 5)[1] == s[1]);
                assert(s.subrange(0, 5)[2] == s[2]);
                assert(s.subrange(0, 5)[3] == s[3]);
                assert(s.subrange(0, 5)[4] == s[4]);
                assert(false);
            }
        }
        return Err(RdbError::BadMagic);
    }
    proof {
        assert(s.subrange(0, 5) =~= seq![82u8, 69u8, 68u8, 73u8, 83u8]);
    }
    let mut pos: usize = 9;
    let mut out: Vec<RdbEntry> = Vec::new();
    proof {
        reveal(spec_rdb_records);
        lemma_rdb_views(out@);
        assert(rdb_views(out@) =~= Seq::<(Seq<u8>, Seq<u8>, Option<u64>)>::empty());
        if spec_rdb_records(s, 9) is Some {
            assert(rdb_views(out@) + spec_rdb_records(s, 9)->Some_0 =~= spec_rdb_records(
                s,
                9,
            )->Some_0);
        }
    }
    while pos < contents.len()
        invariant
            s == contents@,
            s.len() <= usize::MAX,
            9 <= pos <= s.len(),
            s.subrange(0, 5) == seq![82u8, 69u8, 68u8, 73u8, 83u8],
            spec_rdb_records(s, 9) == (match spec_rdb_records(s, pos as int) {
                Some(rest) => Some(rdb_views(out@) + rest),
                None => Option::<Seq<(Seq<u8>, Seq<u8>, Option<u64>)>>::None,
            }),
        decreases s.len() - pos,
    {
        let ghost out0 = out@;
        match rdb_step(contents, pos, &mut out) {
            Err(e) => {
                return Err(e);
            },
            Ok((p2, done)) => {
                if done {
                    proof {
                        assert(rdb_views(out@) + Seq::<(Seq<u8>, Seq<u8>, Option<u64>)>::empty()
                            =~= rdb_views(out@));
                    }
                    return Ok(out);
                }
                proof {
                    let delta = out@.subrange(out0.len() as int, out@.len() as int);
                    assert(out@ =~= out0 + delta);
                    lemma_rdb_views_concat(out0, delta);
                    match spec_rdb_records(s, p2 as int) {
                        Some(rest2) => {
                            vstd::seq_lib::lemma_concat_associative(
                                rdb_views(out0),
                                rdb_views(delta),
                                rest2,
                            );
                        },
                        None => {},
                    }
                }
                pos = p2;
            },
        }
    }
    proof {
        reveal(spec_rdb_records);
        assert(rdb_views(out@) + Seq::<(Seq<u8>, Seq<u8>, Option<u64>)>::empty() =~= rdb_views(
            out@,
        ));
    }
    Ok(out)
}

/// Record views distribute over concatenation.
proof fn lemma_rdb_views_concat(a: Seq<RdbEntry>, b: Seq<RdbEntry>)
    ensures
        rdb_views(a + b) == rdb_views(a) + rdb_views(b),
{
    lemma_rdb_views(a);
    lemma_rdb_views(b);
    lemma_rdb_views(a + b);
    assert forall|i: int| 0 <= i < a.len() + b.len() implies rdb_views(a + b)[i] == (rdb_views(a)
        + rdb_views(b))[i] by {
        if i < a.len() {
            assert((a + b)[i] == a[i]);
        } else {
            assert((a + b)[i] == b[i - a.len()]);
        }
    }
    assert(rdb_views(a + b) =~= rdb_views(a) + rdb_views(b));
}

/// Appending one entry appends its view.
proof fn lemma_views_push(es: Seq<RdbEntry>, e: RdbEntry)
    ensures
        rdb_views(es.push(e)) == rdb_views(es) + seq![(e.key@, e.value@, e.expiry_wall_ms)],
    decreases es.len(),
{
    let q = es.push(e);
    let tail = seq![(e.key@, e.value@, e.expiry_wall_ms)];
    if es.len() == 0 {
        assert(q[0] == e);
        assert(q.subrange(1, q.len() as int) =~= Seq::<RdbEntry>::empty());
        assert(rdb_views(Seq::<RdbEntry>::empty()) == Seq::<
            (Seq<u8>, Seq<u8>, Option<u64>),
        >::empty());
        assert(rdb_views(es) == Seq::<(Seq<u8>, Seq<u8>, Option<u64>)>::empty());
        assert(rdb_views(q) == tail + Seq::<(Seq<u8>, Seq<u8>, Option<u64>)>::empty());
        assert(rdb_views(q) =~= rdb_views(es) + tail);
    } else {
        let rest = es.subrange(1, es.len() as int);
        lemma_views_push(rest, e);
        assert(q[0] == es[0]);
        assert(q.subrange(1, q.len() as int) =~= rest.push(e));
        let h0 = seq![(es[0].key@, es[0].value@, es[0].expiry_wall_ms)];
        assert(rdb_views(q) == h0 + rdb_views(rest.push(e)));
        assert(rdb_views(es) == h0 + rdb_views(rest));
        vstd::seq_lib::lemma_concat_associative(h0, rdb_views(rest), tail);
        assert(rdb_views(q) =~= rdb_views(es) + tail);
    }
}

} // verus!
