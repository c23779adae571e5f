//! The cross-cutting guarantees of the keyspace, stated on their own:
//! expiry makes a key observably absent, stream ids only grow, sorted
//! sets iterate in score order, a set is read back exactly, and
//! deletion is idempotent.  Each proof leans only on the public
//! contracts and invariants of the operations involved.

use vstd::prelude::*;

use crate::score::lemma_frac_lt_irrefl;
use crate::score::lemma_score_lt_irrefl;
use crate::score::lemma_score_lt_trans;
use crate::score::score_eqv;
use crate::score::score_lt;
use crate::store::Db;
use crate::store::KeyWithExpiry;
use crate::store::ValueType;
use crate::store::assoc_get;
use crate::store::db_keys_unique;
use crate::store::entry_live;
use crate::store::live_get;
use crate::store::spec_del_count;
use crate::store::spec_del_entries;
use crate::store::lemma_assoc_remove_char;
use crate::stream::id_lt;
use crate::stream::stream_wf;
use crate::zset::ZsetEntry;
use crate::zset::zlt;
use crate::zset::zset_wf;

verus! {

/// A key whose deadline has passed reads as absent: every reader goes
/// through `live_get`, which hides such an entry, so `GET` answers the
/// null bulk and `TYPE` answers `none` by their contracts.
pub proof fn lemma_deadline_passed_absent(
    s: Seq<(Vec<u8>, KeyWithExpiry)>,
    k: Seq<u8>,
    now: u64,
)
    requires
        assoc_get(s, k) matches Some(e) && (e.expiry matches Some(d) && d <= now),
    ensures
        live_get(s, k, now) is None,
{
}

/// In a well-formed keyspace, every stored stream's ids strictly
/// increase along the log and `0-0` never appears.
pub proof fn lemma_stream_ids_increasing(db: Db, i: int)
    requires
        db.wf(),
        0 <= i < db.entries@.len(),
        db.entries@[i].1.value is Stream,
    ensures
        stream_wf(db.entries@[i].1.value->Stream_0),
        forall|a: int, b: int|
            0 <= a < b < db.entries@[i].1.value->Stream_0.entries@.len() ==> id_lt(
                (#[trigger] db.entries@[i].1.value->Stream_0.entries@[a]).ms,
                db.entries@[i].1.value->Stream_0.entries@[a].seq,
                (#[trigger] db.entries@[i].1.value->Stream_0.entries@[b]).ms,
                db.entries@[i].1.value->Stream_0.entries@[b].seq,
            ),
        forall|a: int|
            0 <= a < db.entries@[i].1.value->Stream_0.entries@.len() ==> !((
            #[trigger] db.entries@[i].1.value->Stream_0.entries@[a]).ms == 0
                && db.entries@[i].1.value->Stream_0.entries@[a].seq == 0),
{
    assert(crate::store::value_wf(db.entries@[i].1.value));
}

/// In a well-formed sorted set, a strictly smaller score comes strictly
/// earlier, and equal scores order by the member bytes.
pub proof fn lemma_zset_score_order(z: Seq<ZsetEntry>, i: int, j: int)
    requires
        zset_wf(z),
        0 <= i < z.len(),
        0 <= j < z.len(),
        score_lt(z[i].score, z[j].score),
    ensures
        i < j,
{
    if i == j {
        lemma_score_lt_irrefl(z[i].score);
    } else if j < i {
        assert(zlt(z[j], z[i]));
        if score_lt(z[j].score, z[i].score) {
            lemma_score_lt_trans(z[i].score, z[j].score, z[i].score);
            lemma_score_lt_irrefl(z[i].score);
        } else {
            assert(score_eqv(z[j].score, z[i].score));
            lemma_frac_lt_irrefl(z[i].score.frac@);
        }
    }
}

/// Ties in score resolve by the member bytes: with equal scores, the
/// lexicographically smaller member comes first.
pub proof fn lemma_zset_member_order(z: Seq<ZsetEntry>, i: int, j: int)
    requires
        zset_wf(z),
        0 <= i < z.len(),
        0 <= j < z.len(),
        score_eqv(z[i].score, z[j].score),
        crate::bytesutil::lex_lt(z[i].member@, z[j].member@),
    ensures
        i < j,
{
    if i == j {
        crate::bytesutil::lemma_lex_lt_irrefl(z[i].member@);
    } else if j < i {
        assert(zlt(z[j], z[i]));
        if score_lt(z[j].score, z[i].score) {
            lemma_frac_lt_irrefl(z[i].score.frac@);
        } else {
            crate::bytesutil::lemma_lex_lt_trans(z[i].member@, z[j].member@, z[i].member@);
            crate::bytesutil::lemma_lex_lt_irrefl(z[i].member@);
        }
    }
}

/// A bound key reads back exactly: after `SET k b`, the binding of `k`
/// is the string `b`, and while the deadline (if any) has not passed, a
/// read at `now` sees exactly that string — with `GET`'s contract, the
/// reply is the bulk string `b`.
pub proof fn lemma_set_get_roundtrip(
    s: Seq<(Vec<u8>, KeyWithExpiry)>,
    k: Seq<u8>,
    b: Vec<u8>,
    expiry: Option<u64>,
    now: u64,
)
    requires
        assoc_get(s, k) == Some((KeyWithExpiry { value: ValueType::Str(b), expiry })),
        match expiry {
            None => true,
            Some(d) => d > now,
        },
    ensures
        live_get(s, k, now) matches Some(e) && (e.value matches ValueType::Str(v) && v@ == b@),
{
    assert(entry_live((KeyWithExpiry { value: ValueType::Str(b), expiry }), now));
}

/// Deleting one bound key removes exactly it: the count is one, and a
/// second deletion of the same key counts zero.
pub proof fn lemma_del_idempotent(s: Seq<(Vec<u8>, KeyWithExpiry)>, keys: Seq<Seq<u8>>)
    requires
        db_keys_unique(s),
        keys.len() == 1,
        assoc_get(s, keys[0]) is Some,
    ensures
        spec_del_count(s, keys) == 1,
        assoc_get(spec_del_entries(s, keys), keys[0]) is None,
        spec_del_count(spec_del_entries(s, keys), keys) == 0,
{
    let k = keys[0];
    let rest = keys.subrange(1, keys.len() as int);
    assert(rest =~= Seq::<Seq<u8>>::empty());
    let s1 = crate::store::assoc_remove(s, k);
    lemma_assoc_remove_char(s, k);
    assert(spec_del_count(s, keys) == 1 + spec_del_count(s1, rest));
    assert(spec_del_count(s1, rest) == 0);
    assert(spec_del_entries(s, keys) == spec_del_entries(s1, rest));
    assert(spec_del_entries(s1, rest) == s1);
    assert(spec_del_count(s1, keys) == 0 + spec_del_count(
        crate::store::assoc_remove(s1, k),
        rest,
    ));
}

/// An `XADD` that repeats the newest id is rejected: the id rules only
/// accept an id strictly above the top, and an id never exceeds itself.
pub proof fn lemma_xadd_same_id_rejected(ms: u64, seq_no: u64, wall: u64)
    ensures
        crate::stream::generated_id(
            crate::stream::XaddId::Explicit(ms, seq_no),
            wall,
            Some((ms, seq_no)),
        ) == (ms, seq_no),
        !id_lt(ms, seq_no, ms, seq_no),
{
}

} // verus!
