//! The typed keyspace: a map from key bytes to a tagged value with an
//! optional expiry deadline.  A key whose deadline has passed is
//! observably absent: every reader checks the deadline and deletes the
//! entry in place before answering.

use vstd::prelude::*;

use crate::resp::RespData;
use crate::resp::RespValue;
use crate::resp::resp_view;
use crate::stream::Stream;
use crate::stream::stream_wf;
use crate::zset::ZsetEntry;
use crate::zset::zset_wf;
use vstd::string::StrSliceExecFns;
use vstd::string::StringSliceAdditionalSpecFns;

verus! {

/// A stored value: one of the four kinds the server serves.
pub enum ValueType {
    Str(Vec<u8>),
    List(Vec<Vec<u8>>),
    Stream(Stream),
    SortedSet(Vec<ZsetEntry>),
}

/// A keyspace entry: the value and an optional monotonic deadline in
/// milliseconds.
pub struct KeyWithExpiry {
    pub value: ValueType,
    pub expiry: Option<u64>,
}

/// The keyspace: keys with their entries, keys unique.
pub struct Db {
    pub entries: Vec<(Vec<u8>, KeyWithExpiry)>,
}

/// Internal well-formedness of one stored value.
pub open spec fn value_wf(v: ValueType) -> bool {
    match v {
        ValueType::Str(_) => true,
        ValueType::List(_) => true,
        ValueType::Stream(s) => stream_wf(s),
        ValueType::SortedSet(z) => zset_wf(z@),
    }
}

/// No two entries share a key.
pub open spec fn db_keys_unique(s: Seq<(Vec<u8>, KeyWithExpiry)>) -> bool {
    forall|i: int, j: int|
        0 <= i < j < s.len() ==> (#[trigger] s[i]).0@ != (#[trigger] s[j]).0@
}

/// First-match association lookup.
pub open spec fn assoc_get(s: Seq<(Vec<u8>, KeyWithExpiry)>, k: Seq<u8>) -> Option<KeyWithExpiry>
    decreases s.len(),
{
    if s.len() == 0 {
        None
    } else if s[0].0@ == k {
        Some(s[0].1)
    } else {
        assoc_get(s.subrange(1, s.len() as int), k)
    }
}

/// First-match association removal.
pub open spec fn assoc_remove(s: Seq<(Vec<u8>, KeyWithExpiry)>, k: Seq<u8>) -> Seq<
    (Vec<u8>, KeyWithExpiry),
>
    decreases s.len(),
{
    if s.len() == 0 {
        s
    } else if s[0].0@ == k {
        s.subrange(1, s.len() as int)
    } else {
        seq![s[0]] + assoc_remove(s.subrange(1, s.len() as int), k)
    }
}

/// With unique keys, a lookup finds the entry at any index that carries
/// the key, and finds one exactly when some index does.
pub proof fn lemma_assoc_get_char(s: Seq<(Vec<u8>, KeyWithExpiry)>, k: Seq<u8>)
    requires
        db_keys_unique(s),
    ensures
        (assoc_get(s, k) is Some <==> exists|i: int|
            0 <= i < s.len() && (#[trigger] s[i]).0@ == k),
        forall|i: int|
            0 <= i < s.len() && (#[trigger] s[i]).0@ == k ==> assoc_get(s, k) == Some(s[i].1),
    decreases s.len(),
{
    if s.len() > 0 {
        let rest = s.subrange(1, s.len() as int);
        assert(db_keys_unique(rest)) by {
            assert forall|i: int, j: int| 0 <= i < j < rest.len() implies (#[trigger] rest[i]).0@
                != (#[trigger] rest[j]).0@ by {
                assert(rest[i] == s[i + 1] && rest[j] == s[j + 1]);
            }
        }
        lemma_assoc_get_char(rest, k);
        if s[0].0@ == k {
            assert forall|i: int|
                0 <= i < s.len() && (#[trigger] s[i]).0@ == k implies assoc_get(s, k) == Some(
                s[i].1,
            ) by {
                if i > 0 {
                    assert(s[0].0@ != s[i].0@);
                }
            }
        } else {
            if assoc_get(s, k) is Some {
                let i = choose|i: int| 0 <= i < rest.len() && (#[trigger] rest[i]).0@ == k;
                assert(s[i + 1] == rest[i]);
            }
            if exists|i: int| 0 <= i < s.len() && (#[trigger] s[i]).0@ == k {
                let i = choose|i: int| 0 <= i < s.len() && (#[trigger] s[i]).0@ == k;
                assert(i > 0);
                assert(rest[i - 1] == s[i]);
            }
            assert forall|i: int|
                0 <= i < s.len() && (#[trigger] s[i]).0@ == k implies assoc_get(s, k) == Some(
                s[i].1,
            ) by {
                assert(i > 0);
                assert(rest[i - 1] == s[i]);
            }
        }
    }
}

/// Removing the entry at an index whose key is `k` is exactly the
/// association removal of `k`; every other key is untouched.
pub proof fn lemma_assoc_remove_idx(s: Seq<(Vec<u8>, KeyWithExpiry)>, i: int)
    requires
        db_keys_unique(s),
        0 <= i < s.len(),
        forall|j: int| 0 <= j < i ==> (#[trigger] s[j]).0@ != s[i].0@,
    ensures
        assoc_remove(s, s[i].0@) == s.remove(i),
        db_keys_unique(s.remove(i)),
        assoc_get(s.remove(i), s[i].0@) is None,
        forall|k2: Seq<u8>|
            k2 != s[i].0@ ==> #[trigger] assoc_get(s.remove(i), k2) == assoc_get(s, k2),
    decreases s.len(),
{
    let t = s.remove(i);
    assert(t =~= s.subrange(0, i) + s.subrange(i + 1, s.len() as int));
    assert forall|j: int| 0 <= j < t.len() implies #[trigger] t[j] == (if j < i {
        s[j]
    } else {
        s[j + 1]
    }) by {}
    assert(db_keys_unique(t)) by {
        assert forall|a: int, b: int| 0 <= a < b < t.len() implies (#[trigger] t[a]).0@
            != (#[trigger] t[b]).0@ by {
            let a2 = if a < i { a } else { a + 1 };
            let b2 = if b < i { b } else { b + 1 };
            assert(t[a] == s[a2] && t[b] == s[b2]);
        }
    }
    lemma_assoc_get_char(s, s[i].0@);
    lemma_assoc_get_char(t, s[i].0@);
    if assoc_get(t, s[i].0@) is Some {
        let j = choose|j: int| 0 <= j < t.len() && (#[trigger] t[j]).0@ == s[i].0@;
        let j2 = if j < i { j } else { j + 1 };
        assert(s[j2].0@ == s[i].0@ && j2 != i);
        assert(false);
    }
    assert forall|k2: Seq<u8>| k2 != s[i].0@ implies #[trigger] assoc_get(t, k2) == assoc_get(
        s,
        k2,
    ) by {
        lemma_assoc_get_char(s, k2);
        lemma_assoc_get_char(t, k2);
        if assoc_get(s, k2) is Some {
            let j = choose|j: int| 0 <= j < s.len() && (#[trigger] s[j]).0@ == k2;
            assert(j != i);
            let j2 = if j < i { j } else { j - 1 };
            assert(t[j2] == s[j]);
            assert(assoc_get(t, k2) == Some(t[j2].1));
        } else {
            if assoc_get(t, k2) is Some {
                let j = choose|j: int| 0 <= j < t.len() && (#[trigger] t[j]).0@ == k2;
                let j2 = if j < i { j } else { j + 1 };
                assert(s[j2].0@ == k2);
                assert(false);
            }
        }
    }
    // the functional form: induct on the position of i
    if i == 0 {
        assert(assoc_remove(s, s[0].0@) == s.subrange(1, s.len() as int));
        assert(s.remove(0) =~= s.subrange(1, s.len() as int));
    } else {
        let rest = s.subrange(1, s.len() as int);
        assert(db_keys_unique(rest)) by {
            assert forall|a: int, b: int| 0 <= a < b < rest.len() implies (#[trigger] rest[a]).0@
                != (#[trigger] rest[b]).0@ by {
                assert(rest[a] == s[a + 1] && rest[b] == s[b + 1]);
            }
        }
        assert forall|j: int| 0 <= j < i - 1 implies (#[trigger] rest[j]).0@ != rest[i - 1].0@ by {
            assert(rest[j] == s[j + 1]);
            assert(rest[i - 1] == s[i]);
        }
        assert(rest[i - 1] == s[i]);
        lemma_assoc_remove_idx(rest, i - 1);
        assert(s[0].0@ != s[i].0@);
        assert(assoc_remove(s, s[i].0@) == seq![s[0]] + assoc_remove(rest, s[i].0@));
        assert(seq![s[0]] + rest.remove(i - 1) =~= s.remove(i));
    }
}

/// If no entry carries `k`, removing `k` changes nothing.
pub proof fn lemma_assoc_remove_absent(s: Seq<(Vec<u8>, KeyWithExpiry)>, k: Seq<u8>)
    requires
        forall|j: int| 0 <= j < s.len() ==> (#[trigger] s[j]).0@ != k,
    ensures
        assoc_remove(s, k) == s,
    decreases s.len(),
{
    if s.len() > 0 {
        let rest = s.subrange(1, s.len() as int);
        assert forall|j: int| 0 <= j < rest.len() implies (#[trigger] rest[j]).0@ != k by {
            assert(rest[j] == s[j + 1]);
        }
        lemma_assoc_remove_absent(rest, k);
        assert(seq![s[0]] + rest =~= s);
    }
}

/// Replacing the entry at an index, keeping its key, rewrites that key's
/// binding and no other.
pub proof fn lemma_assoc_update_idx(
    s: Seq<(Vec<u8>, KeyWithExpiry)>,
    i: int,
    p: (Vec<u8>, KeyWithExpiry),
)
    requires
        db_keys_unique(s),
        0 <= i < s.len(),
        p.0@ == s[i].0@,
    ensures
        db_keys_unique(s.update(i, p)),
        assoc_get(s.update(i, p), p.0@) == Some(p.1),
        forall|k2: Seq<u8>|
            k2 != p.0@ ==> #[trigger] assoc_get(s.update(i, p), k2) == assoc_get(s, k2),
{
    let t = s.update(i, p);
    assert(db_keys_unique(t)) by {
        assert forall|a: int, b: int| 0 <= a < b < t.len() implies (#[trigger] t[a]).0@
            != (#[trigger] t[b]).0@ by {
            assert(t[a].0@ == s[a].0@ && t[b].0@ == s[b].0@);
        }
    }
    lemma_assoc_get_char(t, p.0@);
    assert(t[i] == p);
    assert forall|k2: Seq<u8>| k2 != p.0@ implies #[trigger] assoc_get(t, k2) == assoc_get(
        s,
        k2,
    ) by {
        lemma_assoc_get_char(s, k2);
        lemma_assoc_get_char(t, k2);
        if assoc_get(s, k2) is Some {
            let j = choose|j: int| 0 <= j < s.len() && (#[trigger] s[j]).0@ == k2;
            assert(j != i);
            assert(t[j] == s[j]);
        } else {
            if assoc_get(t, k2) is Some {
                let j = choose|j: int| 0 <= j < t.len() && (#[trigger] t[j]).0@ == k2;
                assert(j != i);
                assert(t[j] == s[j]);
                assert(false);
            }
        }
    }
}

/// Appending a fresh key binds it and no other.
pub proof fn lemma_assoc_push(s: Seq<(Vec<u8>, KeyWithExpiry)>, p: (Vec<u8>, KeyWithExpiry))
    requires
        db_keys_unique(s),
        forall|j: int| 0 <= j < s.len() ==> (#[trigger] s[j]).0@ != p.0@,
    ensures
        db_keys_unique(s.push(p)),
        assoc_get(s.push(p), p.0@) == Some(p.1),
        forall|k2: Seq<u8>|
            k2 != p.0@ ==> #[trigger] assoc_get(s.push(p), k2) == assoc_get(s, k2),
{
    let t = s.push(p);
    assert(db_keys_unique(t)) by {
        assert forall|a: int, b: int| 0 <= a < b < t.len() implies (#[trigger] t[a]).0@
            != (#[trigger] t[b]).0@ by {
            if b < s.len() {
                assert(t[a] == s[a] && t[b] == s[b]);
            } else {
                assert(t[a] == s[a] && t[b] == p);
            }
        }
    }
    lemma_assoc_get_char(t, p.0@);
    assert(t[s.len() as int] == p);
    assert forall|k2: Seq<u8>| k2 != p.0@ implies #[trigger] assoc_get(t, k2) == assoc_get(
        s,
        k2,
    ) by {
        lemma_assoc_get_char(s, k2);
        lemma_assoc_get_char(t, k2);
        if assoc_get(s, k2) is Some {
            let j = choose|j: int| 0 <= j < s.len() && (#[trigger] s[j]).0@ == k2;
            assert(t[j] == s[j]);
        } else {
            if assoc_get(t, k2) is Some {
                let j = choose|j: int| 0 <= j < t.len() && (#[trigger] t[j]).0@ == k2;
                assert(j < s.len() ==> t[j] == s[j]);
                assert(j == s.len() ==> t[j] == p);
                assert(false);
            }
        }
    }
}

/// Is the entry still observable at `now`?
pub open spec fn entry_live(e: KeyWithExpiry, now: u64) -> bool {
    match e.expiry {
        None => true,
        Some(d) => d > now,
    }
}

/// The binding of `k` as a reader at `now` sees it.
pub open spec fn live_get(s: Seq<(Vec<u8>, KeyWithExpiry)>, k: Seq<u8>, now: u64) -> Option<
    KeyWithExpiry,
> {
    match assoc_get(s, k) {
        Some(e) => if entry_live(e, now) {
            Some(e)
        } else {
            None
        },
        None => None,
    }
}

/// The expiry deadline stored for `PX ms` issued at `now` (saturating at
/// the top of the clock).
pub open spec fn spec_deadline(now: u64, ms: u64) -> u64 {
    if now + ms > u64::MAX {
        u64::MAX
    } else {
        (now + ms) as u64
    }
}

impl Db {
    /// The keyspace invariant: unique keys and well-formed values.
    pub open spec fn wf(self) -> bool {
        &&& db_keys_unique(self.entries@)
        &&& forall|i: int|
            0 <= i < self.entries@.len() ==> value_wf((#[trigger] self.entries@[i]).1.value)
    }

    /// An empty keyspace.
    pub fn new() -> (r: Db)
        ensures
            r.wf(),
            r.entries@.len() == 0,
    {
        Db { entries: Vec::new() }
    }

    /// Index of the entry carrying `key`, if any.
    fn index_of(&self, key: &Vec<u8>) -> (r: Option<usize>)
        ensures
            match r {
                Some(i) => i < self.entries@.len() && self.entries@[i as int].0@ == key@
                    && forall|j: int| 0 <= j < i ==> (#[trigger] self.entries@[j]).0@ != key@,
                None => forall|j: int|
                    0 <= j < self.entries@.len() ==> (#[trigger] self.entries@[j]).0@ != key@,
            },
    {
        let mut i: usize = 0;
        while i < self.entries.len()
            invariant
                i <= self.entries@.len(),
                forall|j: int| 0 <= j < i ==> (#[trigger] self.entries@[j]).0@ != key@,
            decreases self.entries@.len() - i,
        {
            if crate::bytesutil::bytes_eq(&self.entries[i].0, key) {
                return Some(i);
            }
            i += 1;
        }
        None
    }

    /// Remove the binding of `key`, reporting whether one existed.
    pub fn remove_key(&mut self, key: &Vec<u8>) -> (r: bool)
        requires
            old(self).wf(),
        ensures
            final(self).wf(),
            r == (assoc_get(old(self).entries@, key@) is Some),
            final(self).entries@ == assoc_remove(old(self).entries@, key@),
            assoc_get(final(self).entries@, key@) is None,
            forall|k2: Seq<u8>|
                k2 != key@ ==> #[trigger] assoc_get(final(self).entries@, k2) == assoc_get(
                    old(self).entries@,
                    k2,
                ),
    {
        let ghost s = self.entries@;
        match self.index_of(key) {
            Some(i) => {
                proof {
                    lemma_assoc_get_char(s, key@);
                    lemma_assoc_remove_idx(s, i as int);
                }
                self.entries.remove(i);
                proof {
                    assert forall|i2: int|
                        0 <= i2 < self.entries@.len() implies value_wf(
                        (#[trigger] self.entries@[i2]).1.value,
                    ) by {
                        let j2 = if i2 < i as int {
                            i2
                        } else {
                            i2 + 1
                        };
                        assert(self.entries@[i2] == s[j2]);
                    }
                }
                true
            },
            None => {
                proof {
                    lemma_assoc_get_char(s, key@);
                    lemma_assoc_remove_absent(s, key@);
                }
                false
            },
        }
    }

    /// Bind `key` to `e`, replacing any previous binding.
    pub fn upsert(&mut self, key: Vec<u8>, e: KeyWithExpiry)
        requires
            old(self).wf(),
            value_wf(e.value),
        ensures
            final(self).wf(),
            assoc_get(final(self).entries@, key@) == Some(e),
            forall|k2: Seq<u8>|
                k2 != key@ ==> #[trigger] assoc_get(final(self).entries@, k2) == assoc_get(
                    old(self).entries@,
                    k2,
                ),
    {
        let ghost s = self.entries@;
        match self.index_of(&key) {
            Some(i) => {
                proof {
                    lemma_assoc_update_idx(s, i as int, (key, e));
                }
                self.entries.set(i, (key, e));
                proof {
                    assert forall|i2: int|
                        0 <= i2 < self.entries@.len() implies value_wf(
                        (#[trigger] self.entries@[i2]).1.value,
                    ) by {
                        if i2 != i as int {
                            assert(self.entries@[i2] == s[i2]);
                        }
                    }
                }
            },
            None => {
                proof {
                    lemma_assoc_push(s, (key, e));
                }
                self.entries.push((key, e));
                proof {
                    assert forall|i2: int|
                        0 <= i2 < self.entries@.len() implies value_wf(
                        (#[trigger] self.entries@[i2]).1.value,
                    ) by {
                        if i2 < s.len() {
                            assert(self.entries@[i2] == s[i2]);
                        }
                    }
                }
            },
        }
    }

    /// Index of `key` if present and live at `now`, without mutating:
    /// an expired entry merely reads as absent.
    pub fn live_peek(&self, key: &Vec<u8>, now: u64) -> (r: Option<usize>)
        requires
            self.wf(),
        ensures
            match r {
                Some(i) => i < self.entries@.len() && self.entries@[i as int].0@ == key@
                    && live_get(self.entries@, key@, now) == Some(self.entries@[i as int].1),
                None => live_get(self.entries@, key@, now) is None,
            },
    {
        match self.index_of(key) {
            None => {
                proof {
                    lemma_assoc_get_char(self.entries@, key@);
                }
                None
            },
            Some(i) => {
                proof {
                    lemma_assoc_get_char(self.entries@, key@);
                }
                let live = match self.entries[i].1.expiry {
                    None => true,
                    Some(d) => d > now,
                };
                if live {
                    Some(i)
                } else {
                    None
                }
            },
        }
    }

    /// Index of `key` if it is present and live at `now`.  An expired
    /// entry is deleted in place, so afterwards the key is bound exactly
    /// when the result is `Some`.
    pub fn live_index_of(&mut self, key: &Vec<u8>, now: u64) -> (r: Option<usize>)
        requires
            old(self).wf(),
        ensures
            final(self).wf(),
            forall|k2: Seq<u8>|
                k2 != key@ ==> #[trigger] assoc_get(final(self).entries@, k2) == assoc_get(
                    old(self).entries@,
                    k2,
                ),
            match r {
                Some(i) => *final(self) == *old(self) && i < final(self).entries@.len()
                    && final(self).entries@[i as int].0@ == key@ && assoc_get(
                    final(self).entries@,
                    key@,
                ) == Some(final(self).entries@[i as int].1) && entry_live(
                    final(self).entries@[i as int].1,
                    now,
                ) && live_get(old(self).entries@, key@, now) == Some(
                    final(self).entries@[i as int].1,
                ),
                None => live_get(old(self).entries@, key@, now) is None && assoc_get(
                    final(self).entries@,
                    key@,
                ) is None,
            },
    {
        let ghost s = self.entries@;
        match self.index_of(key) {
            None => {
                proof {
                    lemma_assoc_get_char(s, key@);
                }
                None
            },
            Some(i) => {
                proof {
                    lemma_assoc_get_char(s, key@);
                }
                let live = match self.entries[i].1.expiry {
                    None => true,
                    Some(d) => d > now,
                };
                if live {
                    Some(i)
                } else {
                    proof {
                        lemma_assoc_remove_idx(s, i as int);
                    }
                    self.entries.remove(i);
                    proof {
                        assert forall|i2: int|
                            0 <= i2 < self.entries@.len() implies value_wf(
                            (#[trigger] self.entries@[i2]).1.value,
                        ) by {
                            let j2 = if i2 < i as int {
                                i2
                            } else {
                                i2 + 1
                            };
                            assert(self.entries@[i2] == s[j2]);
                        }
                    }
                    None
                }
            },
        }
    }
}

/// Lookup, removal and uniqueness facts for a whole association removal.
pub proof fn lemma_assoc_remove_char(s: Seq<(Vec<u8>, KeyWithExpiry)>, k: Seq<u8>)
    requires
        db_keys_unique(s),
    ensures
        db_keys_unique(assoc_remove(s, k)),
        assoc_get(assoc_remove(s, k), k) is None,
        forall|k2: Seq<u8>|
            k2 != k ==> #[trigger] assoc_get(assoc_remove(s, k), k2) == assoc_get(s, k2),
        assoc_remove(s, k).len() <= s.len(),
        forall|i: int|
            0 <= i < assoc_remove(s, k).len() ==> exists|j: int|
                0 <= j < s.len() && #[trigger] assoc_remove(s, k)[i] == s[j],
    decreases s.len(),
{
    if s.len() == 0 {
    } else if s[0].0@ == k {
        let rest = s.subrange(1, s.len() as int);
        assert forall|i: int, j: int| 0 <= i < j < rest.len() implies (#[trigger] rest[i]).0@
            != (#[trigger] rest[j]).0@ by {
            assert(rest[i] == s[i + 1] && rest[j] == s[j + 1]);
        }
        lemma_assoc_get_char(rest, k);
        if assoc_get(rest, k) is Some {
            let i = choose|i: int| 0 <= i < rest.len() && (#[trigger] rest[i]).0@ == k;
            assert(s[i + 1] == rest[i]);
            assert(false);
        }
        assert forall|k2: Seq<u8>| k2 != k implies #[trigger] assoc_get(assoc_remove(s, k), k2)
            == assoc_get(s, k2) by {}
        assert forall|i: int| 0 <= i < rest.len() implies exists|j: int|
            0 <= j < s.len() && #[trigger] rest[i] == s[j] by {
            assert(rest[i] == s[i + 1]);
        }
    } else {
        let rest = s.subrange(1, s.len() as int);
        assert forall|i: int, j: int| 0 <= i < j < rest.len() implies (#[trigger] rest[i]).0@
            != (#[trigger] rest[j]).0@ by {
            assert(rest[i] == s[i + 1] && rest[j] == s[j + 1]);
        }
        lemma_assoc_remove_char(rest, k);
        let t = seq![s[0]] + assoc_remove(rest, k);
        assert(assoc_remove(s, k) == t);
        let rr = assoc_remove(rest, k);
        assert forall|i: int| 0 <= i < t.len() implies exists|j: int|
            0 <= j < s.len() && #[trigger] t[i] == s[j] by {
            if i == 0 {
                assert(t[0] == s[0]);
            } else {
                assert(t[i] == rr[i - 1]);
                let j = choose|j: int| 0 <= j < rest.len() && rr[i - 1] == #[trigger] rest[j];
                assert(rest[j] == s[j + 1]);
            }
        }
        assert(db_keys_unique(t)) by {
            lemma_assoc_get_char(rr, s[0].0@);
            assert(assoc_get(rest, s[0].0@) is None) by {
                lemma_assoc_get_char(rest, s[0].0@);
                if assoc_get(rest, s[0].0@) is Some {
                    let i = choose|i: int|
                        0 <= i < rest.len() && (#[trigger] rest[i]).0@ == s[0].0@;
                    assert(s[i + 1] == rest[i]);
                    assert(false);
                }
            }
            assert forall|a: int, b: int| 0 <= a < b < t.len() implies (#[trigger] t[a]).0@
                != (#[trigger] t[b]).0@ by {
                if a == 0 {
                    assert(t[b] == rr[b - 1]);
                    if t[b].0@ == s[0].0@ {
                        assert(assoc_get(rr, s[0].0@) == Some(rr[b - 1].1));
                        assert(false);
                    }
                } else {
                    let ra = a - 1;
                    let rb = b - 1;
                    assert(t[a] == rr[ra] && t[b] == rr[rb]);
                }
            }
        }
        assert(assoc_get(t, k) is None) by {
            assert(t.subrange(1, t.len() as int) =~= rr);
        }
        assert forall|k2: Seq<u8>| k2 != k implies #[trigger] assoc_get(t, k2) == assoc_get(
            s,
            k2,
        ) by {
            assert(t.subrange(1, t.len() as int) =~= rr);
            if t[0].0@ != k2 {
                assert(assoc_get(t, k2) == assoc_get(rr, k2));
            }
        }
    }
}

/// How many of the listed keys a sequential deletion removes.
pub open spec fn spec_del_count(s: Seq<(Vec<u8>, KeyWithExpiry)>, keys: Seq<Seq<u8>>) -> int
    decreases keys.len(),
{
    if keys.len() == 0 {
        0
    } else {
        let c: int = if assoc_get(s, keys[0]) is Some {
            1
        } else {
            0
        };
        c + spec_del_count(assoc_remove(s, keys[0]), keys.subrange(1, keys.len() as int))
    }
}

/// The entries left after deleting the listed keys in order.
pub open spec fn spec_del_entries(s: Seq<(Vec<u8>, KeyWithExpiry)>, keys: Seq<Seq<u8>>) -> Seq<
    (Vec<u8>, KeyWithExpiry),
>
    decreases keys.len(),
{
    if keys.len() == 0 {
        s
    } else {
        spec_del_entries(assoc_remove(s, keys[0]), keys.subrange(1, keys.len() as int))
    }
}

/// A deletion never removes more than the number of keys listed.
pub proof fn lemma_del_count_bound(s: Seq<(Vec<u8>, KeyWithExpiry)>, keys: Seq<Seq<u8>>)
    ensures
        0 <= spec_del_count(s, keys) <= keys.len(),
    decreases keys.len(),
{
    if keys.len() > 0 {
        lemma_del_count_bound(assoc_remove(s, keys[0]), keys.subrange(1, keys.len() as int));
    }
}

/// The type-name text of a stored value.
pub open spec fn kind_name(v: ValueType) -> Seq<u8> {
    match v {
        ValueType::Str(_) => "string".spec_bytes(),
        ValueType::List(_) => "list".spec_bytes(),
        ValueType::Stream(_) => "stream".spec_bytes(),
        ValueType::SortedSet(_) => "set".spec_bytes(),
    }
}

/// Does `h` hold `n` as a contiguous substring?
pub open spec fn spec_contains_sub(h: Seq<u8>, n: Seq<u8>) -> bool {
    exists|a: int| 0 <= a && a + n.len() <= h.len() && #[trigger] h.subrange(a, a + n.len()) == n
}

/// Does a key match a KEYS pattern?  `*` matches every key; any other
/// pattern matches by substring containment.
pub open spec fn key_matches(k: Seq<u8>, p: Seq<u8>) -> bool {
    p == seq![42u8] || spec_contains_sub(k, p)
}

/// The live keys matching a pattern, in keyspace order.
pub open spec fn matching_live_keys(
    s: Seq<(Vec<u8>, KeyWithExpiry)>,
    p: Seq<u8>,
    now: u64,
) -> Seq<Seq<u8>>
    decreases s.len(),
{
    if s.len() == 0 {
        Seq::empty()
    } else {
        let rest = matching_live_keys(s.subrange(1, s.len() as int), p, now);
        if entry_live(s[0].1, now) && key_matches(s[0].0@, p) {
            seq![s[0].0@] + rest
        } else {
            rest
        }
    }
}

/// Appending one entry appends its key when it is live and matches.
pub proof fn lemma_matching_snoc(
    s: Seq<(Vec<u8>, KeyWithExpiry)>,
    e: (Vec<u8>, KeyWithExpiry),
    p: Seq<u8>,
    now: u64,
)
    ensures
        matching_live_keys(s.push(e), p, now) == matching_live_keys(s, p, now) + (if entry_live(
            e.1,
            now,
        ) && key_matches(e.0@, p) {
            seq![e.0@]
        } else {
            Seq::<Seq<u8>>::empty()
        }),
    decreases s.len(),
{
    let tailval: Seq<Seq<u8>> = if entry_live(e.1, now) && key_matches(e.0@, p) {
        seq![e.0@]
    } else {
        Seq::<Seq<u8>>::empty()
    };
    if s.len() == 0 {
        let q = s.push(e);
        assert(q[0] == e);
        assert(q.subrange(1, q.len() as int) =~= Seq::<(Vec<u8>, KeyWithExpiry)>::empty());
        assert(matching_live_keys(q.subrange(1, q.len() as int), p, now) =~= Seq::<
            Seq<u8>,
        >::empty());
        assert(matching_live_keys(s, p, now) =~= Seq::<Seq<u8>>::empty());
        assert(matching_live_keys(q, p, now) =~= matching_live_keys(s, p, now) + tailval);
    } else {
        let q = s.push(e);
        let rest = s.subrange(1, s.len() as int);
        lemma_matching_snoc(rest, e, p, now);
        assert(q[0] == s[0]);
        assert(q.subrange(1, q.len() as int) =~= rest.push(e));
        assert(matching_live_keys(q.subrange(1, q.len() as int), p, now) == matching_live_keys(
            rest,
            p,
            now,
        ) + tailval);
        if entry_live(s[0].1, now) && key_matches(s[0].0@, p) {
            assert(matching_live_keys(q, p, now) == seq![s[0].0@] + (matching_live_keys(
                rest,
                p,
                now,
            ) + tailval));
            assert(matching_live_keys(s, p, now) == seq![s[0].0@] + matching_live_keys(
                rest,
                p,
                now,
            ));
            assert(matching_live_keys(q, p, now) =~= matching_live_keys(s, p, now) + tailval);
        } else {
            assert(matching_live_keys(q, p, now) =~= matching_live_keys(s, p, now) + tailval);
        }
    }
}

/// Substring containment of byte vectors.
pub fn bytes_contains(h: &Vec<u8>, n: &Vec<u8>) -> (r: bool)
    ensures
        r == spec_contains_sub(h@, n@),
{
    if n.len() == 0 {
        proof {
            let a0: int = 0;
            assert(h@.subrange(a0, a0 + n@.len()) =~= n@);
        }
        return true;
    }
    if n.len() > h.len() {
        proof {
            if spec_contains_sub(h@, n@) {
                let a = choose|a: int|
                    0 <= a && a + n@.len() <= h@.len() && #[trigger] h@.subrange(a, a + n@.len())
                        == n@;
                assert(false);
            }
        }
        return false;
    }
    let mut a: usize = 0;
    while a <= h.len() - n.len()
        invariant
            h@.len() <= usize::MAX,
            0 < n@.len() <= h@.len(),
            a <= h@.len() - n@.len() + 1,
            forall|a2: int| 0 <= a2 < a ==> #[trigger] h@.subrange(a2, a2 + n@.len()) != n@,
        decreases h@.len() - a,
    {
        let mut j: usize = 0;
        let mut matched = true;
        while j < n.len()
            invariant
                h@.len() <= usize::MAX,
                0 < n@.len(),
                a + n@.len() <= h@.len(),
                j <= n@.len(),
                matched ==> forall|j2: int| 0 <= j2 < j ==> #[trigger] h@[a + j2] == n@[j2],
                !matched ==> h@.subrange(a as int, a as int + n@.len()) != n@,
            decreases n@.len() - j,
        {
            if h[a + j] != n[j] {
                proof {
                    let sub = h@.subrange(a as int, a as int + n@.len());
                    assert(sub[j as int] == h@[a + j as int]);
                }
                matched = false;
                j = n.len();
            } else {
                j += 1;
            }
        }
        if matched {
            proof {
                let aa = a as int;
                assert forall|x: int| 0 <= x < n@.len() implies h@.subrange(aa, aa + n@.len())[x]
                    == n@[x] by {
                    assert(h@[a + x] == n@[x]);
                }
                assert(h@.subrange(aa, aa + n@.len()) =~= n@);
            }
            return true;
        }
        a += 1;
    }
    proof {
        if spec_contains_sub(h@, n@) {
            let a2 = choose|a2: int|
                0 <= a2 && a2 + n@.len() <= h@.len() && #[trigger] h@.subrange(a2, a2 + n@.len())
                    == n@;
            assert(a2 < a);
            assert(false);
        }
    }
    false
}

impl Db {
    /// Bind `key` to the string `val`, with the optional `PX` deadline
    /// computed against `now`.
    pub fn set_key_internal(&mut self, key: Vec<u8>, val: Vec<u8>, px_ms: Option<u64>, now: u64)
        requires
            old(self).wf(),
        ensures
            final(self).wf(),
            assoc_get(final(self).entries@, key@) == Some(
                (KeyWithExpiry {
                    value: ValueType::Str(val),
                    expiry: match px_ms {
                        None => None,
                        Some(ms) => Some(spec_deadline(now, ms)),
                    },
                }),
            ),
            forall|k2: Seq<u8>|
                k2 != key@ ==> #[trigger] assoc_get(final(self).entries@, k2) == assoc_get(
                    old(self).entries@,
                    k2,
                ),
    {
        let expiry = match px_ms {
            None => None,
            Some(ms) => Some(
                if ms > u64::MAX - now {
                    u64::MAX
                } else {
                    now + ms
                },
            ),
        };
        self.upsert(key, KeyWithExpiry { value: ValueType::Str(val), expiry });
    }

    /// `SET`: bind the key and reply `+OK`.
    pub fn set_key(&mut self, key: Vec<u8>, val: Vec<u8>, px_ms: Option<u64>, now: u64) -> (r:
        RespValue)
        requires
            old(self).wf(),
        ensures
            final(self).wf(),
            resp_view(r) == RespData::SimpleString(crate::replies::ok_msg()),
            assoc_get(final(self).entries@, key@) == Some(
                (KeyWithExpiry {
                    value: ValueType::Str(val),
                    expiry: match px_ms {
                        None => None,
                        Some(ms) => Some(spec_deadline(now, ms)),
                    },
                }),
            ),
            forall|k2: Seq<u8>|
                k2 != key@ ==> #[trigger] assoc_get(final(self).entries@, k2) == assoc_get(
                    old(self).entries@,
                    k2,
                ),
    {
        self.set_key_internal(key, val, px_ms, now);
        crate::replies::reply_ok()
    }

    /// `SET` as the replica applies it: no reply.
    pub fn set_key_silent(&mut self, key: Vec<u8>, val: Vec<u8>, px_ms: Option<u64>, now: u64)
        requires
            old(self).wf(),
        ensures
            final(self).wf(),
            assoc_get(final(self).entries@, key@) == Some(
                (KeyWithExpiry {
                    value: ValueType::Str(val),
                    expiry: match px_ms {
                        None => None,
                        Some(ms) => Some(spec_deadline(now, ms)),
                    },
                }),
            ),
            forall|k2: Seq<u8>|
                k2 != key@ ==> #[trigger] assoc_get(final(self).entries@, k2) == assoc_get(
                    old(self).entries@,
                    k2,
                ),
    {
        self.set_key_internal(key, val, px_ms, now);
    }

    /// `GET`: the stored string, the null bulk if the key is absent or
    /// expired (an expired entry is deleted in place), or the wrong-type
    /// error.
    pub fn get_key(&mut self, key: &Vec<u8>, now: u64) -> (r: RespValue)
        requires
            old(self).wf(),
        ensures
            final(self).wf(),
            forall|k2: Seq<u8>|
                k2 != key@ ==> #[trigger] assoc_get(final(self).entries@, k2) == assoc_get(
                    old(self).entries@,
                    k2,
                ),
            match live_get(old(self).entries@, key@, now) {
                None => resp_view(r) == RespData::NullBulkString && assoc_get(
                    final(self).entries@,
                    key@,
                ) is None,
                Some(e) => *final(self) == *old(self) && (match e.value {
                    ValueType::Str(s) => resp_view(r) == RespData::BulkString(s@),
                    _ => resp_view(r) == RespData::SimpleError(crate::replies::wrongtype_msg()),
                }),
            },
    {
        match self.live_index_of(key, now) {
            None => crate::replies::reply_null_bulk(),
            Some(i) => {
                match &self.entries[i].1.value {
                    ValueType::Str(s) => RespValue::BulkString(crate::bytesutil::bytes_clone(s)),
                    _ => crate::replies::reply_wrongtype(),
                }
            },
        }
    }

    /// `DEL`: remove each listed key in order and reply with the count of
    /// keys that existed.
    pub fn del_key(&mut self, keys: &Vec<Vec<u8>>) -> (r: RespValue)
        requires
            old(self).wf(),
            keys@.len() <= 0x7fff_ffff_ffff_ffff,
        ensures
            final(self).wf(),
            final(self).entries@ == spec_del_entries(
                old(self).entries@,
                crate::bytesutil::views_of(keys@),
            ),
            resp_view(r) == RespData::Integer(
                spec_del_count(old(self).entries@, crate::bytesutil::views_of(keys@)),
            ),
    {
        let ghost s0 = self.entries@;
        let ghost kv = crate::bytesutil::views_of(keys@);
        let mut cnt: usize = 0;
        let mut idx: usize = 0;
        proof {
            crate::bytesutil::lemma_views_of(keys@);
            assert(kv.subrange(0, kv.len() as int) =~= kv);
        }
        while idx < keys.len()
            invariant
                self.wf(),
                kv == crate::bytesutil::views_of(keys@),
                kv.len() == keys@.len(),
                forall|j: int| 0 <= j < keys@.len() ==> kv[j] == (#[trigger] keys@[j])@,
                idx <= keys@.len(),
                keys@.len() <= 0x7fff_ffff_ffff_ffff,
                cnt <= idx,
                spec_del_count(s0, kv) == cnt + spec_del_count(
                    self.entries@,
                    kv.subrange(idx as int, kv.len() as int),
                ),
                spec_del_entries(s0, kv) == spec_del_entries(
                    self.entries@,
                    kv.subrange(idx as int, kv.len() as int),
                ),
            decreases keys@.len() - idx,
        {
            let ghost rem = kv.subrange(idx as int, kv.len() as int);
            proof {
                assert(rem[0] == kv[idx as int]);
                assert(rem.subrange(1, rem.len() as int) =~= kv.subrange(
                    idx as int + 1,
                    kv.len() as int,
                ));
            }
            let existed = self.remove_key(&keys[idx]);
            if existed {
                cnt += 1;
            }
            idx += 1;
        }
        proof {
            assert(kv.subrange(kv.len() as int, kv.len() as int) =~= Seq::<Seq<u8>>::empty());
            lemma_del_count_bound(s0, kv);
        }
        RespValue::Integer(cnt as i64)
    }

    /// `DEL` as the replica applies it: no reply.
    pub fn del_key_silent(&mut self, keys: &Vec<Vec<u8>>)
        requires
            old(self).wf(),
            keys@.len() <= 0x7fff_ffff_ffff_ffff,
        ensures
            final(self).wf(),
            final(self).entries@ == spec_del_entries(
                old(self).entries@,
                crate::bytesutil::views_of(keys@),
            ),
    {
        let _ = self.del_key(keys);
    }

    /// `INCR`: add one to the stored decimal, creating the key at `1`,
    /// or reply the not-an-integer error.
    pub fn incr_key(&mut self, key: &Vec<u8>, now: u64) -> (r: RespValue)
        requires
            old(self).wf(),
        ensures
            final(self).wf(),
            forall|k2: Seq<u8>|
                k2 != key@ ==> #[trigger] assoc_get(final(self).entries@, k2) == assoc_get(
                    old(self).entries@,
                    k2,
                ),
            match live_get(old(self).entries@, key@, now) {
                None => resp_view(r) == RespData::Integer(1) && (assoc_get(
                    final(self).entries@,
                    key@,
                ) matches Some(e2) && e2.expiry is None && (e2.value matches ValueType::Str(v)
                    && v@ == crate::bytesutil::spec_i64_digits(1))),
                Some(e) => match e.value {
                    ValueType::Str(s) => {
                        if crate::bytesutil::valid_i64_bytes(s@) && crate::bytesutil::i64_val(s@)
                            < i64::MAX {
                            let n = crate::bytesutil::i64_val(s@);
                            &&& resp_view(r) == RespData::Integer(n + 1)
                            &&& (assoc_get(final(self).entries@, key@) matches Some(e2)
                                && e2.expiry == e.expiry && (e2.value matches ValueType::Str(v)
                                && v@ == crate::bytesutil::spec_i64_digits(n + 1)))
                        } else {
                            resp_view(r) == RespData::SimpleError(crate::replies::not_int_msg())
                                && *final(self) == *old(self)
                        }
                    },
                    _ => resp_view(r) == RespData::SimpleError(crate::replies::not_int_msg())
                        && *final(self) == *old(self),
                },
            },
    {
        match self.live_index_of(key, now) {
            None => {
                let one = crate::bytesutil::i64_to_dec(1);
                self.upsert(
                    crate::bytesutil::bytes_clone(key),
                    KeyWithExpiry { value: ValueType::Str(one), expiry: None },
                );
                RespValue::Integer(1)
            },
            Some(i) => {
                let expiry = self.entries[i].1.expiry;
                match &self.entries[i].1.value {
                    ValueType::Str(s) => {
                        let stored = crate::bytesutil::bytes_clone(s);
                        match crate::bytesutil::parse_i64(&stored) {
                            Some(n) => {
                                if n < i64::MAX {
                                    let digits = crate::bytesutil::i64_to_dec(n + 1);
                                    self.upsert(
                                        crate::bytesutil::bytes_clone(key),
                                        KeyWithExpiry { value: ValueType::Str(digits), expiry },
                                    );
                                    RespValue::Integer(n + 1)
                                } else {
                                    crate::replies::reply_not_int()
                                }
                            },
                            None => crate::replies::reply_not_int(),
                        }
                    },
                    _ => crate::replies::reply_not_int(),
                }
            },
        }
    }

    /// `TYPE`: the kind of the live value, or `none`.
    pub fn handle_type(&mut self, key: &Vec<u8>, now: u64) -> (r: RespValue)
        requires
            old(self).wf(),
        ensures
            final(self).wf(),
            forall|k2: Seq<u8>|
                k2 != key@ ==> #[trigger] assoc_get(final(self).entries@, k2) == assoc_get(
                    old(self).entries@,
                    k2,
                ),
            match live_get(old(self).entries@, key@, now) {
                None => resp_view(r) == RespData::SimpleString("none".spec_bytes()) && assoc_get(
                    final(self).entries@,
                    key@,
                ) is None,
                Some(e) => *final(self) == *old(self) && resp_view(r) == RespData::SimpleString(
                    kind_name(e.value),
                ),
            },
    {
        match self.live_index_of(key, now) {
            None => RespValue::SimpleString(crate::bytesutil::str_bytes("none")),
            Some(i) => {
                match &self.entries[i].1.value {
                    ValueType::Str(_) => RespValue::SimpleString(
                        crate::bytesutil::str_bytes("string"),
                    ),
                    ValueType::List(_) => RespValue::SimpleString(
                        crate::bytesutil::str_bytes("list"),
                    ),
                    ValueType::Stream(_) => RespValue::SimpleString(
                        crate::bytesutil::str_bytes("stream"),
                    ),
                    ValueType::SortedSet(_) => RespValue::SimpleString(
                        crate::bytesutil::str_bytes("set"),
                    ),
                }
            },
        }
    }

    /// `KEYS`: the array of live keys matching the pattern — empty when
    /// none match.
    pub fn handle_key_search(&self, pattern: &Vec<u8>, now: u64) -> (r: RespValue)
        requires
            self.wf(),
        ensures
            resp_view(r) == RespData::Array(
                matching_live_keys(self.entries@, pattern@, now).map_values(
                    |k: Seq<u8>| RespData::BulkString(k),
                ),
            ),
    {
        let star = pattern.len() == 1 && pattern[0] == 42;
        proof {
            if star {
                assert(pattern@ =~= seq![42u8]);
            } else if pattern@ == seq![42u8] {
                assert(pattern@.len() == 1 && pattern@[0] == 42);
                assert(false);
            }
        }
        let mut found: Vec<RespValue> = Vec::new();
        let mut i: usize = 0;
        let ghost s = self.entries@;
        proof {
            assert(s.subrange(0, 0) =~= Seq::<(Vec<u8>, KeyWithExpiry)>::empty());
            assert(crate::resp::resp_seq_view(found@) =~= matching_live_keys(
                s.subrange(0, 0),
                pattern@,
                now,
            ).map_values(|k: Seq<u8>| RespData::BulkString(k)));
        }
        while i < self.entries.len()
            invariant
                self.wf(),
                s == self.entries@,
                i <= s.len(),
                star == (pattern@ == seq![42u8]),
                crate::resp::resp_seq_view(found@) == matching_live_keys(
                    s.subrange(0, i as int),
                    pattern@,
                    now,
                ).map_values(|k: Seq<u8>| RespData::BulkString(k)),
            decreases s.len() - i,
        {
            let live = match self.entries[i].1.expiry {
                None => true,
                Some(d) => d > now,
            };
            let matches_p = star || bytes_contains(&self.entries[i].0, pattern);
            let ghost found0 = found@;
            if live && matches_p {
                found.push(
                    RespValue::BulkString(crate::bytesutil::bytes_clone(&self.entries[i].0)),
                );
            }
            proof {
                let pre = s.subrange(0, i as int);
                let post = s.subrange(0, i as int + 1);
                assert(post =~= pre.push(s[i as int]));
                lemma_matching_snoc(pre, s[i as int], pattern@, now);
                let f = |k: Seq<u8>| RespData::BulkString(k);
                if live && matches_p {
                    crate::resp::lemma_resp_seq_view_push(found0, found@.last());
                    assert(found@ == found0.push(found@.last()));
                    assert(matching_live_keys(post, pattern@, now) =~= matching_live_keys(
                        pre,
                        pattern@,
                        now,
                    ).push(s[i as int].0@));
                    assert(matching_live_keys(post, pattern@, now).map_values(f)
                        =~= matching_live_keys(pre, pattern@, now).map_values(f).push(
                        f(s[i as int].0@),
                    ));
                    assert(crate::resp::resp_view(found@.last()) == f(s[i as int].0@));
                } else {
                    assert(matching_live_keys(post, pattern@, now) =~= matching_live_keys(
                        pre,
                        pattern@,
                        now,
                    ));
                }
            }
            i += 1;
        }
        proof {
            assert(s.subrange(0, s.len() as int) =~= s);
            crate::resp::lemma_resp_seq_view(found@);
        }
        RespValue::Array(found)
    }
}

} // verus!
