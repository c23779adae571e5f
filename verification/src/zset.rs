//! Sorted-set entries and their order: ascending by score, ties broken by
//! the member bytes.  A well-formed sorted set is strictly ordered, which
//! makes members unique.

use vstd::prelude::*;

use crate::bytesutil::bytes_clone;
use crate::bytesutil::lex_lt;
use crate::bytesutil::lemma_lex_lt_connex;
use crate::bytesutil::lemma_lex_lt_trans;
use crate::score::Score;
use crate::score::lemma_score_lt_connex;
use crate::score::lemma_score_lt_trans;
use crate::score::score_eqv;
use crate::score::score_lt;
use crate::score::score_wf;
use crate::score::score_clone;
use crate::score::spec_score_bytes;
use crate::replies::reply_null_bulk;
use crate::replies::reply_wrongtype;
use crate::resp::RespData;
use crate::resp::RespValue;
use crate::resp::resp_view;
use crate::store::Db;
use crate::store::KeyWithExpiry;
use crate::store::ValueType;
use crate::store::assoc_get;
use crate::store::live_get;

verus! {

/// One member of a sorted set, with its score.
pub struct ZsetEntry {
    pub member: Vec<u8>,
    pub score: Score,
}

/// The sorted-set order: by score, then lexicographically by member.
pub open spec fn zlt(a: ZsetEntry, b: ZsetEntry) -> bool {
    score_lt(a.score, b.score) || (score_eqv(a.score, b.score) && lex_lt(a.member@, b.member@))
}

/// A well-formed sorted set: canonical scores, strictly ordered entries,
/// unique members.
pub open spec fn zset_wf(v: Seq<ZsetEntry>) -> bool {
    &&& forall|i: int| 0 <= i < v.len() ==> score_wf((#[trigger] v[i]).score)
    &&& forall|i: int, j: int| 0 <= i < j < v.len() ==> zlt(#[trigger] v[i], #[trigger] v[j])
    &&& forall|i: int, j: int|
        0 <= i < j < v.len() ==> (#[trigger] v[i]).member@ != (#[trigger] v[j]).member@
}

/// The sorted-set order is transitive.
pub proof fn lemma_zlt_trans(a: ZsetEntry, b: ZsetEntry, c: ZsetEntry)
    ensures
        zlt(a, b) && zlt(b, c) ==> zlt(a, c),
{
    if zlt(a, b) && zlt(b, c) {
        if score_lt(a.score, b.score) && score_lt(b.score, c.score) {
            lemma_score_lt_trans(a.score, b.score, c.score);
        } else if score_lt(a.score, b.score) {
        } else if score_lt(b.score, c.score) {
        } else {
            lemma_lex_lt_trans(a.member@, b.member@, c.member@);
        }
    }
}

/// Entries that are incomparable in the order are equal in score and
/// member.
pub proof fn lemma_zlt_connex(a: ZsetEntry, b: ZsetEntry)
    requires
        !zlt(a, b),
        !zlt(b, a),
    ensures
        score_eqv(a.score, b.score),
        a.member@ == b.member@,
{
    lemma_score_lt_connex(a.score, b.score);
    lemma_lex_lt_connex(a.member@, b.member@);
}

/// Compare entries in the sorted-set order.
pub fn zless(a: &ZsetEntry, b: &ZsetEntry) -> (r: bool)
    ensures
        r == zlt(*a, *b),
{
    if crate::score::score_less(&a.score, &b.score) {
        true
    } else if crate::score::score_eq(&a.score, &b.score) {
        crate::bytesutil::lex_less(&a.member, &b.member)
    } else {
        false
    }
}

/// The canonical parts of a score, for talking about scores by value.
pub open spec fn score_view(s: Score) -> (bool, u64, Seq<u8>) {
    (s.neg, s.int_part, s.frac@)
}

/// First-match lookup of a member's score parts.
pub open spec fn zset_lookup(z: Seq<ZsetEntry>, m: Seq<u8>) -> Option<(bool, u64, Seq<u8>)>
    decreases z.len(),
{
    if z.len() == 0 {
        None
    } else if z[0].member@ == m {
        Some(score_view(z[0].score))
    } else {
        zset_lookup(z.subrange(1, z.len() as int), m)
    }
}

/// With unique members, the lookup finds the entry at any index carrying
/// the member, and finds one exactly when some index does.
pub proof fn lemma_zset_lookup_char(z: Seq<ZsetEntry>, m: Seq<u8>)
    requires
        forall|i: int, j: int|
            0 <= i < j < z.len() ==> (#[trigger] z[i]).member@ != (#[trigger] z[j]).member@,
    ensures
        (zset_lookup(z, m) is Some <==> exists|i: int|
            0 <= i < z.len() && (#[trigger] z[i]).member@ == m),
        forall|i: int|
            0 <= i < z.len() && (#[trigger] z[i]).member@ == m ==> zset_lookup(z, m) == Some(
                score_view(z[i].score),
            ),
    decreases z.len(),
{
    if z.len() > 0 {
        let rest = z.subrange(1, z.len() as int);
        assert forall|i: int, j: int| 0 <= i < j < rest.len() implies (#[trigger] rest[i]).member@
            != (#[trigger] rest[j]).member@ by {
            assert(rest[i] == z[i + 1] && rest[j] == z[j + 1]);
        }
        lemma_zset_lookup_char(rest, m);
        if z[0].member@ == m {
            assert forall|i: int|
                0 <= i < z.len() && (#[trigger] z[i]).member@ == m implies zset_lookup(z, m)
                == Some(score_view(z[i].score)) by {
                if i > 0 {
                    assert(z[0].member@ != z[i].member@);
                }
            }
        } else {
            if zset_lookup(z, m) is Some {
                let i = choose|i: int| 0 <= i < rest.len() && (#[trigger] rest[i]).member@ == m;
                assert(z[i + 1] == rest[i]);
            }
            if exists|i: int| 0 <= i < z.len() && (#[trigger] z[i]).member@ == m {
                let i = choose|i: int| 0 <= i < z.len() && (#[trigger] z[i]).member@ == m;
                assert(i > 0);
                assert(rest[i - 1] == z[i]);
            }
            assert forall|i: int|
                0 <= i < z.len() && (#[trigger] z[i]).member@ == m implies zset_lookup(z, m)
                == Some(score_view(z[i].score)) by {
                assert(i > 0);
                assert(rest[i - 1] == z[i]);
            }
        }
    }
}

/// The member byte views of a sorted set, in order.
pub open spec fn zmembers(z: Seq<ZsetEntry>) -> Seq<Seq<u8>>
    decreases z.len(),
{
    if z.len() == 0 {
        Seq::empty()
    } else {
        seq![z[0].member@] + zmembers(z.subrange(1, z.len() as int))
    }
}

/// The member views are the members, pointwise.
pub proof fn lemma_zmembers(z: Seq<ZsetEntry>)
    ensures
        zmembers(z).len() == z.len(),
        forall|i: int| 0 <= i < z.len() ==> zmembers(z)[i] == (#[trigger] z[i]).member@,
    decreases z.len(),
{
    if z.len() > 0 {
        let rest = z.subrange(1, z.len() as int);
        lemma_zmembers(rest);
        assert forall|i: int| 0 <= i < z.len() implies zmembers(z)[i]
            == (#[trigger] z[i]).member@ by {
            if i > 0 {
                assert(rest[i - 1] == z[i]);
            }
        }
    }
}

/// Find a member's index in a sorted set.
fn zfind(z: &Vec<ZsetEntry>, m: &Vec<u8>) -> (r: Option<usize>)
    ensures
        match r {
            Some(i) => i < z@.len() && z@[i as int].member@ == m@,
            None => forall|j: int| 0 <= j < z@.len() ==> (#[trigger] z@[j]).member@ != m@,
        },
{
    let mut i: usize = 0;
    while i < z.len()
        invariant
            i <= z@.len(),
            forall|j: int| 0 <= j < i ==> (#[trigger] z@[j]).member@ != m@,
        decreases z@.len() - i,
    {
        if crate::bytesutil::bytes_eq(&z[i].member, m) {
            return Some(i);
        }
        i += 1;
    }
    None
}

/// Insert an entry into a sorted set that does not hold its member,
/// keeping the order.
fn zinsert(z: &mut Vec<ZsetEntry>, e: ZsetEntry)
    requires
        zset_wf(old(z)@),
        score_wf(e.score),
        forall|j: int| 0 <= j < old(z)@.len() ==> (#[trigger] old(z)@[j]).member@ != e.member@,
    ensures
        zset_wf(final(z)@),
        final(z)@.len() == old(z)@.len() + 1,
        exists|i: int|
            0 <= i < final(z)@.len() && #[trigger] final(z)@[i] == e && final(z)@
                == old(z)@.insert(i, e),
{
    let ghost z0 = z@;
    let mut i: usize = 0;
    while i < z.len()
        invariant
            z0 == z@,
            z0 == old(z)@,
            i <= z0.len(),
            zset_wf(z0),
            score_wf(e.score),
            forall|j: int| 0 <= j < z0.len() ==> (#[trigger] z0[j]).member@ != e.member@,
            forall|j: int| 0 <= j < i ==> zlt(#[trigger] z0[j], e),
        decreases z0.len() - i,
    {
        if !zless(&z[i], &e) {
            proof {
                lemma_zlt_insert(z0, e, i as int);
            }
            z.insert(i, e);
            proof {
                assert(z@ == z0.insert(i as int, e));
                assert(z@[i as int] == e);
            }
            return ;
        }
        i += 1;
    }
    proof {
        lemma_zlt_insert(z0, e, z0.len() as int);
        assert(z0.insert(z0.len() as int, e) =~= z0.push(e));
    }
    z.push(e);
    proof {
        assert(z@ == z0.insert(z0.len() as int, e));
        assert(z@[z0.len() as int] == e);
    }
}

/// Inserting at the first position not below the new entry keeps the
/// set ordered.
proof fn lemma_zlt_insert(z: Seq<ZsetEntry>, e: ZsetEntry, i: int)
    requires
        zset_wf(z),
        score_wf(e.score),
        0 <= i <= z.len(),
        forall|j: int| 0 <= j < z.len() ==> (#[trigger] z[j]).member@ != e.member@,
        forall|j: int| 0 <= j < i ==> zlt(#[trigger] z[j], e),
        i < z.len() ==> !zlt(z[i], e),
    ensures
        zset_wf(z.insert(i, e)),
        z.insert(i, e).len() == z.len() + 1,
        z.insert(i, e)[i] == e,
{
    let t = z.insert(i, e);
    assert forall|a: int| 0 <= a < t.len() implies #[trigger] t[a] == (if a < i {
        z[a]
    } else if a == i {
        e
    } else {
        z[a - 1]
    }) by {}
    if i < z.len() {
        if zlt(e, z[i]) {
        } else {
            lemma_zlt_connex(e, z[i]);
            assert(false);
        }
    }
    assert forall|a: int, b: int| 0 <= a < b < t.len() implies zlt(#[trigger] t[a], #[trigger] t[b]) by {
        if a < i && b < i {
        } else if a < i && b == i {
        } else if a < i && b > i {
        } else if a == i && b > i {
            if b - 1 > i - 1 && b - 1 < z.len() {
                if b - 1 == i {
                    if i < z.len() {
                        assert(zlt(e, z[i]));
                    }
                } else {
                    assert(zlt(e, z[i]));
                    assert(zlt(z[i], z[b - 1]));
                    lemma_zlt_trans(e, z[i], z[b - 1]);
                }
            }
        } else {
        }
    }
    assert forall|a: int, b: int| 0 <= a < b < t.len() implies (#[trigger] t[a]).member@
        != (#[trigger] t[b]).member@ by {}
    assert forall|a: int| 0 <= a < t.len() implies score_wf((#[trigger] t[a]).score) by {}
}

/// Removing one entry keeps the order and drops exactly its member.
pub proof fn lemma_zset_remove(z: Seq<ZsetEntry>, i: int)
    requires
        zset_wf(z),
        0 <= i < z.len(),
    ensures
        zset_wf(z.remove(i)),
        zset_lookup(z.remove(i), z[i].member@) is None,
        forall|m: Seq<u8>|
            m != z[i].member@ ==> #[trigger] zset_lookup(z.remove(i), m) == zset_lookup(z, m),
{
    let t = z.remove(i);
    assert(t =~= z.subrange(0, i) + z.subrange(i + 1, z.len() as int));
    assert forall|a: int| 0 <= a < t.len() implies #[trigger] t[a] == (if a < i {
        z[a]
    } else {
        z[a + 1]
    }) by {}
    assert(zset_wf(t)) by {
        assert forall|a: int, b: int| 0 <= a < b < t.len() implies zlt(#[trigger] t[a], #[trigger] t[b])
            && t[a].member@ != t[b].member@ by {
            let a2 = if a < i { a } else { a + 1 };
            let b2 = if b < i { b } else { b + 1 };
            assert(t[a] == z[a2] && t[b] == z[b2]);
        }
        assert forall|a: int| 0 <= a < t.len() implies score_wf((#[trigger] t[a]).score) by {
            let a2 = if a < i { a } else { a + 1 };
            assert(t[a] == z[a2]);
        }
    }
    lemma_zset_lookup_char(z, z[i].member@);
    lemma_zset_lookup_char(t, z[i].member@);
    if zset_lookup(t, z[i].member@) is Some {
        let a = choose|a: int| 0 <= a < t.len() && (#[trigger] t[a]).member@ == z[i].member@;
        let a2 = if a < i { a } else { a + 1 };
        assert(z[a2].member@ == z[i].member@ && a2 != i);
        assert(false);
    }
    assert forall|m: Seq<u8>| m != z[i].member@ implies #[trigger] zset_lookup(t, m)
        == zset_lookup(z, m) by {
        lemma_zset_lookup_char(z, m);
        lemma_zset_lookup_char(t, m);
        if zset_lookup(z, m) is Some {
            let a = choose|a: int| 0 <= a < z.len() && (#[trigger] z[a]).member@ == m;
            assert(a != i);
            let a2 = if a < i { a } else { a - 1 };
            assert(t[a2] == z[a]);
            assert(zset_lookup(t, m) == Some(score_view(t[a2].score)));
        } else {
            if zset_lookup(t, m) is Some {
                let a = choose|a: int| 0 <= a < t.len() && (#[trigger] t[a]).member@ == m;
                let a2 = if a < i { a } else { a + 1 };
                assert(z[a2].member@ == m);
                assert(false);
            }
        }
    }
}

/// Inserting a fresh member binds it and no other.
pub proof fn lemma_zset_insert_lookup(z: Seq<ZsetEntry>, j: int, e: ZsetEntry)
    requires
        0 <= j <= z.len(),
        forall|a: int| 0 <= a < z.len() ==> (#[trigger] z[a]).member@ != e.member@,
        zset_wf(z.insert(j, e)),
    ensures
        zset_lookup(z.insert(j, e), e.member@) == Some(score_view(e.score)),
        forall|m: Seq<u8>|
            m != e.member@ ==> #[trigger] zset_lookup(z.insert(j, e), m) == zset_lookup(z, m),
{
    let t = z.insert(j, e);
    assert forall|a: int| 0 <= a < t.len() implies #[trigger] t[a] == (if a < j {
        z[a]
    } else if a == j {
        e
    } else {
        z[a - 1]
    }) by {}
    lemma_zset_lookup_char(t, e.member@);
    assert(t[j] == e);
    assert forall|m: Seq<u8>| m != e.member@ implies #[trigger] zset_lookup(t, m) == zset_lookup(
        z,
        m,
    ) by {
        lemma_zset_lookup_char(t, m);
        assert forall|a: int, b: int| 0 <= a < b < z.len() implies (#[trigger] z[a]).member@
            != (#[trigger] z[b]).member@ by {
            let a2 = if a < j { a } else { a + 1 };
            let b2 = if b < j { b } else { b + 1 };
            assert(t[a2] == z[a] && t[b2] == z[b]);
        }
        lemma_zset_lookup_char(z, m);
        if zset_lookup(z, m) is Some {
            let a = choose|a: int| 0 <= a < z.len() && (#[trigger] z[a]).member@ == m;
            let a2 = if a < j { a } else { a + 1 };
            assert(t[a2] == z[a]);
            assert(zset_lookup(t, m) == Some(score_view(t[a2].score)));
        } else {
            if zset_lookup(t, m) is Some {
                let a = choose|a: int| 0 <= a < t.len() && (#[trigger] t[a]).member@ == m;
                if a != j {
                    let a2 = if a < j { a } else { a - 1 };
                    assert(z[a2].member@ == m);
                }
                assert(false);
            }
        }
    }
}

/// The canonical byte rendering of a score, by its parts.
pub open spec fn score_view_bytes(sv: (bool, u64, Seq<u8>)) -> Seq<u8> {
    let sign: Seq<u8> = if sv.0 {
        seq![45u8]
    } else {
        Seq::empty()
    };
    let frac: Seq<u8> = if sv.2.len() > 0 {
        seq![46u8] + sv.2.map_values(|d: u8| (d + 48) as u8)
    } else {
        Seq::empty()
    };
    sign + crate::bytesutil::spec_u64_digits(sv.1 as nat) + frac
}

/// Copy a sorted-set entry.
pub fn zentry_clone(e: &ZsetEntry) -> (r: ZsetEntry)
    ensures
        r.member@ == e.member@,
        score_view(r.score) == score_view(e.score),
{
    ZsetEntry { member: bytes_clone(&e.member), score: score_clone(&e.score) }
}

/// Copy a sorted set.
pub fn zset_clone(z: &Vec<ZsetEntry>) -> (r: Vec<ZsetEntry>)
    ensures
        r@.len() == z@.len(),
        forall|i: int|
            0 <= i < z@.len() ==> (#[trigger] r@[i]).member@ == z@[i].member@ && score_view(
                r@[i].score,
            ) == score_view(z@[i].score),
{
    let mut r: Vec<ZsetEntry> = Vec::new();
    let mut i: usize = 0;
    while i < z.len()
        invariant
            i <= z@.len(),
            r@.len() == i,
            forall|j: int|
                0 <= j < i ==> (#[trigger] r@[j]).member@ == z@[j].member@ && score_view(
                    r@[j].score,
                ) == score_view(z@[j].score),
        decreases z@.len() - i,
    {
        r.push(zentry_clone(&z[i]));
        i += 1;
    }
    r
}

/// Equal views carry the whole order and well-formedness across a copy.
pub proof fn lemma_zset_clone_wf(a: Seq<ZsetEntry>, b: Seq<ZsetEntry>)
    requires
        zset_wf(a),
        b.len() == a.len(),
        forall|i: int|
            0 <= i < a.len() ==> (#[trigger] b[i]).member@ == a[i].member@ && score_view(b[i].score)
                == score_view(a[i].score),
    ensures
        zset_wf(b),
        forall|m: Seq<u8>| #[trigger] zset_lookup(b, m) == zset_lookup(a, m),
    decreases a.len(),
{
    assert forall|i: int, j: int| 0 <= i < j < b.len() implies zlt(#[trigger] b[i], #[trigger] b[j])
        && b[i].member@ != b[j].member@ by {
        assert(zlt(a[i], a[j]));
    }
    assert forall|i: int| 0 <= i < b.len() implies score_wf((#[trigger] b[i]).score) by {
        assert(score_wf(a[i].score));
    }
    assert forall|m: Seq<u8>| #[trigger] zset_lookup(b, m) == zset_lookup(a, m) by {
        lemma_zset_lookup_char(a, m);
        lemma_zset_lookup_char(b, m);
        if zset_lookup(a, m) is Some {
            let i = choose|i: int| 0 <= i < a.len() && (#[trigger] a[i]).member@ == m;
            assert(b[i].member@ == m);
            assert(zset_lookup(b, m) == Some(score_view(b[i].score)));
        } else {
            if zset_lookup(b, m) is Some {
                let i = choose|i: int| 0 <= i < b.len() && (#[trigger] b[i]).member@ == m;
                assert(a[i].member@ == m);
                assert(false);
            }
        }
    }
}

impl Db {
    /// `ZADD` (one scored member): create or re-score the member, keep
    /// the set ordered, reply `1` for a new member and `0` for an
    /// update.  The stored set keeps no expiry.
    pub fn zadd(&mut self, key: &Vec<u8>, sc: Score, member: &Vec<u8>, now: u64) -> (r: RespValue)
        requires
            old(self).wf(),
            score_wf(sc),
        ensures
            final(self).wf(),
            forall|k2: Seq<u8>|
                k2 != key@ ==> #[trigger] assoc_get(final(self).entries@, k2) == assoc_get(
                    old(self).entries@,
                    k2,
                ),
            ({
                let cur = live_get(old(self).entries@, key@, now);
                let bad = cur matches Some(e) && !(e.value is SortedSet);
                let z0: Seq<ZsetEntry> = match cur {
                    Some(e) => match e.value {
                        ValueType::SortedSet(z) => z@,
                        _ => Seq::empty(),
                    },
                    None => Seq::empty(),
                };
                if bad {
                    resp_view(r) == RespData::SimpleError(crate::replies::wrongtype_msg())
                        && assoc_get(final(self).entries@, key@) == assoc_get(
                        old(self).entries@,
                        key@,
                    )
                } else {
                    let existed = zset_lookup(z0, member@) is Some;
                    &&& resp_view(r) == RespData::Integer(
                        if existed {
                            0
                        } else {
                            1
                        },
                    )
                    &&& (assoc_get(final(self).entries@, key@) matches Some(e2) && e2.expiry
                        is None && (e2.value matches ValueType::SortedSet(z1) && zset_lookup(
                        z1@,
                        member@,
                    ) == Some(score_view(sc)) && (forall|m: Seq<u8>|
                        m != member@ ==> #[trigger] zset_lookup(z1@, m) == zset_lookup(z0, m))
                        && z1@.len() == z0.len() + (if existed {
                        0int
                    } else {
                        1int
                    })))
                }
            }),
    {
        let idx = self.live_index_of(key, now);
        let ghost z0: Seq<ZsetEntry> = match live_get(old(self).entries@, key@, now) {
            Some(e) => match e.value {
                ValueType::SortedSet(z) => z@,
                _ => Seq::empty(),
            },
            None => Seq::empty(),
        };
        let mut z: Vec<ZsetEntry>;
        match idx {
            Some(i) => {
                match &self.entries[i].1.value {
                    ValueType::SortedSet(zs) => {
                        z = zset_clone(zs);
                        proof {
                            let e = self.entries@[i as int].1;
                            assert(live_get(old(self).entries@, key@, now) == Some(e));
                            assert(e.value is SortedSet && e.value->SortedSet_0 == *zs);
                            assert(zset_wf(zs@));
                            lemma_zset_clone_wf(zs@, z@);
                        }
                    },
                    _ => {
                        return reply_wrongtype();
                    },
                }
            },
            None => {
                z = Vec::new();
            },
        }
        proof {
            assert(zset_wf(z@));
            lemma_zset_clone_wf(z@, z@);
        }
        let ghost zc = z@;
        let existed_idx = zfind(&z, member);
        let existed = existed_idx.is_some();
        match existed_idx {
            Some(i) => {
                proof {
                    lemma_zset_remove(zc, i as int);
                    lemma_zset_lookup_char(zc, member@);
                }
                z.remove(i);
            },
            None => {
                proof {
                    lemma_zset_lookup_char(zc, member@);
                }
            },
        }
        let ghost zr = z@;
        proof {
            if existed_idx is Some {
            } else {
                assert(zr == zc);
            }
            assert(zset_lookup(zr, member@) is None) by {
                if existed_idx is None {
                    lemma_zset_lookup_char(zr, member@);
                }
            }
            lemma_zset_lookup_char(zr, member@);
        }
        let entry = ZsetEntry { member: bytes_clone(member), score: sc };
        zinsert(&mut z, entry);
        proof {
            let j = choose|j: int|
                0 <= j < z@.len() && #[trigger] z@[j] == entry && z@ == zr.insert(j, entry);
            lemma_zset_insert_lookup(zr, j, entry);
        }
        self.upsert(
            bytes_clone(key),
            KeyWithExpiry { value: ValueType::SortedSet(z), expiry: None },
        );
        if existed {
            RespValue::Integer(0)
        } else {
            RespValue::Integer(1)
        }
    }
}

/// The `ZRANGE` window: indices resolved against the length, clamped,
/// and inclusive of the stop index.
pub open spec fn zrange_window(len: int, start: int, stop: int) -> (int, int) {
    let s0 = if start < 0 {
        len + start
    } else {
        start
    };
    let s = if s0 > 0 {
        s0
    } else {
        0
    };
    let e0 = if stop < 0 {
        len + stop
    } else {
        stop
    };
    let e = if e0 < len - 1 {
        e0
    } else {
        len - 1
    };
    (s, e)
}

impl Db {
    /// `ZRANK`: the member's position in the order, or the null bulk.
    pub fn zrank(&mut self, key: &Vec<u8>, member: &Vec<u8>, now: u64) -> (r: RespValue)
        requires
            old(self).wf(),
        ensures
            final(self).wf(),
            forall|k2: Seq<u8>|
                k2 != key@ ==> #[trigger] assoc_get(final(self).entries@, k2) == assoc_get(
                    old(self).entries@,
                    k2,
                ),
            match live_get(old(self).entries@, key@, now) {
                None => resp_view(r) == RespData::NullBulkString,
                Some(e) => match e.value {
                    ValueType::SortedSet(z) => {
                        if zset_lookup(z@, member@) is Some {
                            exists|i: int|
                                0 <= i < z@.len() && (#[trigger] z@[i]).member@ == member@
                                    && resp_view(r) == RespData::Integer(i as i64 as int)
                        } else {
                            resp_view(r) == RespData::NullBulkString
                        }
                    },
                    _ => resp_view(r) == RespData::SimpleError(crate::replies::wrongtype_msg()),
                },
            },
    {
        match self.live_index_of(key, now) {
            None => reply_null_bulk(),
            Some(i) => {
                match &self.entries[i].1.value {
                    ValueType::SortedSet(zs) => {
                        proof {
                            assert(zset_wf(zs@));
                        }
                        match zfind(zs, member) {
                            Some(j) => {
                                proof {
                                    lemma_zset_lookup_char(zs@, member@);
                                    assert(zs@[j as int].member@ == member@);
                                }
                                RespValue::Integer(#[verifier::truncate] (j as i64))
                            },
                            None => {
                                proof {
                                    lemma_zset_lookup_char(zs@, member@);
                                }
                                reply_null_bulk()
                            },
                        }
                    },
                    _ => reply_wrongtype(),
                }
            },
        }
    }

    /// `ZCARD`: the number of members; an absent key reads as zero.
    pub fn zcard(&mut self, key: &Vec<u8>, now: u64) -> (r: RespValue)
        requires
            old(self).wf(),
        ensures
            final(self).wf(),
            forall|k2: Seq<u8>|
                k2 != key@ ==> #[trigger] assoc_get(final(self).entries@, k2) == assoc_get(
                    old(self).entries@,
                    k2,
                ),
            match live_get(old(self).entries@, key@, now) {
                None => resp_view(r) == RespData::Integer(0),
                Some(e) => match e.value {
                    ValueType::SortedSet(z) => resp_view(r) == RespData::Integer(
                        z@.len() as i64 as int,
                    ),
                    _ => resp_view(r) == RespData::SimpleError(crate::replies::wrongtype_msg()),
                },
            },
    {
        match self.live_index_of(key, now) {
            None => RespValue::Integer(0),
            Some(i) => {
                match &self.entries[i].1.value {
                    ValueType::SortedSet(zs) => RespValue::Integer(
                        #[verifier::truncate] (zs.len() as i64),
                    ),
                    _ => reply_wrongtype(),
                }
            },
        }
    }

    /// `ZSCORE`: the member's score rendered canonically, or the null
    /// bulk.
    pub fn zscore(&mut self, key: &Vec<u8>, member: &Vec<u8>, now: u64) -> (r: RespValue)
        requires
            old(self).wf(),
        ensures
            final(self).wf(),
            forall|k2: Seq<u8>|
                k2 != key@ ==> #[trigger] assoc_get(final(self).entries@, k2) == assoc_get(
                    old(self).entries@,
                    k2,
                ),
            match live_get(old(self).entries@, key@, now) {
                None => resp_view(r) == RespData::NullBulkString,
                Some(e) => match e.value {
                    ValueType::SortedSet(z) => match zset_lookup(z@, member@) {
                        Some(sv) => resp_view(r) == RespData::BulkString(score_view_bytes(sv)),
                        None => resp_view(r) == RespData::NullBulkString,
                    },
                    _ => resp_view(r) == RespData::SimpleError(crate::replies::wrongtype_msg()),
                },
            },
    {
        match self.live_index_of(key, now) {
            None => reply_null_bulk(),
            Some(i) => {
                match &self.entries[i].1.value {
                    ValueType::SortedSet(zs) => {
                        proof {
                            assert(zset_wf(zs@));
                        }
                        match zfind(zs, member) {
                            Some(j) => {
                                proof {
                                    lemma_zset_lookup_char(zs@, member@);
                                }
                                let bytes = crate::score::score_format(&zs[j].score);
                                proof {
                                    assert(bytes@ == score_view_bytes(
                                        score_view(zs@[j as int].score),
                                    ));
                                }
                                RespValue::BulkString(bytes)
                            },
                            None => {
                                proof {
                                    lemma_zset_lookup_char(zs@, member@);
                                }
                                reply_null_bulk()
                            },
                        }
                    },
                    _ => reply_wrongtype(),
                }
            },
        }
    }

    /// `ZREM` (one member): drop the member, reply `1` if it existed.
    pub fn zrem(&mut self, key: &Vec<u8>, member: &Vec<u8>, now: u64) -> (r: RespValue)
        requires
            old(self).wf(),
        ensures
            final(self).wf(),
            forall|k2: Seq<u8>|
                k2 != key@ ==> #[trigger] assoc_get(final(self).entries@, k2) == assoc_get(
                    old(self).entries@,
                    k2,
                ),
            ({
                let cur = live_get(old(self).entries@, key@, now);
                let bad = cur matches Some(e) && !(e.value is SortedSet);
                match cur {
                    None => resp_view(r) == RespData::Integer(0),
                    Some(e) => {
                        if bad {
                            resp_view(r) == RespData::SimpleError(crate::replies::wrongtype_msg())
                        } else {
                            let z0 = e.value->SortedSet_0@;
                            let existed = zset_lookup(z0, member@) is Some;
                            &&& resp_view(r) == RespData::Integer(
                                if existed {
                                    1
                                } else {
                                    0
                                },
                            )
                            &&& (assoc_get(final(self).entries@, key@) matches Some(e2)
                                && e2.expiry == e.expiry && (e2.value matches ValueType::SortedSet(
                                z1,
                            ) && zset_lookup(z1@, member@) is None && (forall|m: Seq<u8>|
                                m != member@ ==> #[trigger] zset_lookup(z1@, m) == zset_lookup(
                                    z0,
                                    m,
                                ))))
                        }
                    },
                }
            }),
    {
        match self.live_index_of(key, now) {
            None => RespValue::Integer(0),
            Some(i) => {
                let expiry = self.entries[i].1.expiry;
                match &self.entries[i].1.value {
                    ValueType::SortedSet(zs) => {
                        proof {
                            assert(zset_wf(zs@));
                        }
                        let mut z = zset_clone(zs);
                        proof {
                            lemma_zset_clone_wf(zs@, z@);
                        }
                        let ghost zc = z@;
                        let removed: bool;
                        match zfind(&z, member) {
                            Some(j) => {
                                proof {
                                    lemma_zset_lookup_char(zc, member@);
                                    lemma_zset_remove(zc, j as int);
                                }
                                z.remove(j);
                                removed = true;
                            },
                            None => {
                                proof {
                                    lemma_zset_lookup_char(zc, member@);
                                }
                                removed = false;
                            },
                        }
                        self.upsert(
                            bytes_clone(key),
                            KeyWithExpiry { value: ValueType::SortedSet(z), expiry },
                        );
                        if removed {
                            RespValue::Integer(1)
                        } else {
                            RespValue::Integer(0)
                        }
                    },
                    _ => reply_wrongtype(),
                }
            },
        }
    }

    /// `ZRANGE`: the members in the inclusive index window, resolved
    /// against the length; an absent key or an empty window reads as the
    /// empty array.
    pub fn zrange(&mut self, key: &Vec<u8>, start: i64, stop: i64, now: u64) -> (r: RespValue)
        requires
            old(self).wf(),
        ensures
            final(self).wf(),
            forall|k2: Seq<u8>|
                k2 != key@ ==> #[trigger] assoc_get(final(self).entries@, k2) == assoc_get(
                    old(self).entries@,
                    k2,
                ),
            match live_get(old(self).entries@, key@, now) {
                None => resp_view(r) == RespData::Array(Seq::empty()),
                Some(e) => match e.value {
                    ValueType::SortedSet(z) => ({
                        let w = zrange_window(z@.len() as int, start as int, stop as int);
                        if 0 <= w.0 <= w.1 < z@.len() {
                            resp_view(r) == crate::list::bulk_array(
                                zmembers(z@).subrange(w.0, w.1 + 1),
                            )
                        } else {
                            resp_view(r) == RespData::Array(Seq::empty())
                        }
                    }),
                    _ => resp_view(r) == RespData::SimpleError(crate::replies::wrongtype_msg()),
                },
            },
    {
        match self.live_index_of(key, now) {
            None => RespValue::Array(Vec::new()),
            Some(i) => {
                match &self.entries[i].1.value {
                    ValueType::SortedSet(zs) => {
                        let len128 = zs.len() as i128;
                        let s0: i128 = if (start as i128) < 0 {
                            len128 + (start as i128)
                        } else {
                            start as i128
                        };
                        let s128: i128 = if s0 > 0 {
                            s0
                        } else {
                            0
                        };
                        let e0: i128 = if (stop as i128) < 0 {
                            len128 + (stop as i128)
                        } else {
                            stop as i128
                        };
                        let e128: i128 = if e0 < len128 - 1 {
                            e0
                        } else {
                            len128 - 1
                        };
                        if 0 <= s128 && s128 <= e128 && e128 < len128 {
                            let a = s128 as usize;
                            let b = e128 as usize;
                            let mut window: Vec<Vec<u8>> = Vec::new();
                            let mut j: usize = a;
                            while j <= b
                                invariant
                                    self.wf(),
                                    i < self.entries@.len(),
                                    self.entries@[i as int].1.value is SortedSet,
                                    zs == self.entries@[i as int].1.value->SortedSet_0,
                                    a <= j <= b + 1,
                                    b < zs@.len() <= usize::MAX,
                                    window@.len() == j - a,
                                    forall|x: int|
                                        0 <= x < window@.len() ==> (#[trigger] window@[x])@
                                            == zs@[a + x].member@,
                                decreases b + 1 - j,
                            {
                                window.push(bytes_clone(&zs[j].member));
                                j += 1;
                            }
                            let reply = crate::list::bulk_array_reply(&window);
                            proof {
                                crate::bytesutil::lemma_views_of(window@);
                                lemma_zmembers(zs@);
                                assert forall|x: int|
                                    0 <= x < window@.len() implies crate::bytesutil::views_of(
                                    window@,
                                )[x] == zmembers(zs@).subrange(a as int, b as int + 1)[x] by {
                                    assert(window@[x]@ == zs@[a + x].member@);
                                }
                                assert(crate::bytesutil::views_of(window@) =~= zmembers(
                                    zs@,
                                ).subrange(a as int, b as int + 1));
                            }
                            reply
                        } else {
                            RespValue::Array(Vec::new())
                        }
                    },
                    _ => reply_wrongtype(),
                }
            },
        }
    }

    /// The members and integer score parts of a sorted set, for callers
    /// that hold geographic scores; `None` on a key of another kind.
    pub fn zset_members_u64(&mut self, key: &Vec<u8>, now: u64) -> (r: Option<
        Vec<(Vec<u8>, u64)>,
    >)
        requires
            old(self).wf(),
        ensures
            final(self).wf(),
            forall|k2: Seq<u8>|
                k2 != key@ ==> #[trigger] assoc_get(final(self).entries@, k2) == assoc_get(
                    old(self).entries@,
                    k2,
                ),
            match live_get(old(self).entries@, key@, now) {
                None => r matches Some(v) && v@.len() == 0,
                Some(e) => match e.value {
                    ValueType::SortedSet(z) => r matches Some(v) && v@.len() == z@.len() && forall|
                        i: int,
                    |
                        0 <= i < z@.len() ==> (#[trigger] v@[i]).0@ == z@[i].member@ && v@[i].1
                            == z@[i].score.int_part,
                    _ => r is None,
                },
            },
    {
        match self.live_index_of(key, now) {
            None => Some(Vec::new()),
            Some(i) => {
                match &self.entries[i].1.value {
                    ValueType::SortedSet(zs) => {
                        let mut out: Vec<(Vec<u8>, u64)> = Vec::new();
                        let mut j: usize = 0;
                        while j < zs.len()
                            invariant
                                self.wf(),
                                i < self.entries@.len(),
                                self.entries@[i as int].1.value is SortedSet,
                                zs == self.entries@[i as int].1.value->SortedSet_0,
                                j <= zs@.len(),
                                out@.len() == j,
                                forall|x: int|
                                    0 <= x < j ==> (#[trigger] out@[x]).0@ == zs@[x].member@
                                        && out@[x].1 == zs@[x].score.int_part,
                            decreases zs@.len() - j,
                        {
                            out.push((bytes_clone(&zs[j].member), zs[j].score.int_part));
                            j += 1;
                        }
                        Some(out)
                    },
                    _ => None,
                }
            },
        }
    }
}

} // verus!
