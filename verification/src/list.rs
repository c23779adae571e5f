//! Lists and the blocked-client registry.  Pushes report the new length
//! and hand a waiting `BLPOP` client its element; pops follow the Redis
//! shapes.  The registry is the authoritative wait queue: one record per
//! waiting client, removed on delivery or timeout.

use vstd::prelude::*;

use crate::bytesutil::bytes_clone;
use crate::bytesutil::bytes_eq;
use crate::bytesutil::lemma_views_of;
use crate::bytesutil::views_of;
use crate::replies::reply_null_bulk;
use crate::replies::reply_wrongtype;
use crate::resp::RespData;
use crate::resp::RespValue;
use crate::resp::lemma_resp_seq_view;
use crate::resp::lemma_resp_seq_view_push;
use crate::resp::resp_seq_view;
use crate::resp::resp_view;
use crate::store::Db;
use crate::store::KeyWithExpiry;
use crate::store::ValueType;
use crate::store::assoc_get;
use crate::store::live_get;

verus! {

/// One client waiting on `BLPOP` for a list key.
pub struct BlockedClient {
    pub list_key: Vec<u8>,
    pub client: u64,
}

/// The wait queue of blocked clients, oldest first.
pub struct BlockedClients {
    pub waiters: Vec<BlockedClient>,
}

/// Position of the first waiter for `k`, if any.
pub open spec fn spec_first_waiter(s: Seq<BlockedClient>, k: Seq<u8>) -> Option<nat>
    decreases s.len(),
{
    if s.len() == 0 {
        None
    } else if s[0].list_key@ == k {
        Some(0)
    } else {
        match spec_first_waiter(s.subrange(1, s.len() as int), k) {
            None => None,
            Some(i) => Some((i + 1) as nat),
        }
    }
}

/// What [`spec_first_waiter`] finds.
pub proof fn lemma_first_waiter_props(s: Seq<BlockedClient>, k: Seq<u8>)
    ensures
        match spec_first_waiter(s, k) {
            Some(i) => i < s.len() && s[i as int].list_key@ == k && forall|j: int|
                0 <= j < i ==> (#[trigger] s[j]).list_key@ != k,
            None => forall|j: int| 0 <= j < s.len() ==> (#[trigger] s[j]).list_key@ != k,
        },
    decreases s.len(),
{
    if s.len() > 0 && s[0].list_key@ != k {
        let rest = s.subrange(1, s.len() as int);
        lemma_first_waiter_props(rest, k);
        match spec_first_waiter(rest, k) {
            Some(i) => {
                assert forall|j: int| 0 <= j < i + 1 implies (#[trigger] s[j]).list_key@ != k by {
                    if j > 0 {
                        assert(rest[j - 1] == s[j]);
                    }
                }
            },
            None => {
                assert forall|j: int| 0 <= j < s.len() implies (#[trigger] s[j]).list_key@
                    != k by {
                    if j > 0 {
                        assert(rest[j - 1] == s[j]);
                    }
                }
            },
        }
    }
}

/// The first waiter is determined by its characterization.
pub proof fn lemma_first_waiter_unique(s: Seq<BlockedClient>, k: Seq<u8>, i: nat)
    requires
        i < s.len(),
        s[i as int].list_key@ == k,
        forall|j: int| 0 <= j < i ==> (#[trigger] s[j]).list_key@ != k,
    ensures
        spec_first_waiter(s, k) == Some(i),
    decreases s.len(),
{
    if i > 0 {
        let rest = s.subrange(1, s.len() as int);
        assert forall|j: int| 0 <= j < i - 1 implies (#[trigger] rest[j]).list_key@ != k by {
            assert(rest[j] == s[j + 1]);
        }
        assert(rest[i - 1] == s[i as int]);
        lemma_first_waiter_unique(rest, k, (i - 1) as nat);
    }
}

impl BlockedClients {
    /// An empty wait queue.
    pub fn new() -> (r: BlockedClients)
        ensures
            r.waiters@.len() == 0,
    {
        BlockedClients { waiters: Vec::new() }
    }

    /// Record that `client` waits on `key`.
    pub fn register(&mut self, key: Vec<u8>, client: u64)
        ensures
            final(self).waiters@ == old(self).waiters@.push(
                (BlockedClient { list_key: key, client }),
            ),
    {
        self.waiters.push(BlockedClient { list_key: key, client });
    }

    /// Remove and return the oldest waiter for `key`, if any.
    pub fn take_waiter(&mut self, key: &Vec<u8>) -> (r: Option<u64>)
        ensures
            match spec_first_waiter(old(self).waiters@, key@) {
                None => r is None && final(self).waiters@ == old(self).waiters@,
                Some(i) => r == Some(old(self).waiters@[i as int].client) && final(self).waiters@
                    == old(self).waiters@.remove(i as int),
            },
    {
        let ghost s = self.waiters@;
        let mut i: usize = 0;
        while i < self.waiters.len()
            invariant
                s == self.waiters@,
                s == old(self).waiters@,
                i <= s.len(),
                forall|j: int| 0 <= j < i ==> (#[trigger] s[j]).list_key@ != key@,
            decreases s.len() - i,
        {
            if bytes_eq(&self.waiters[i].list_key, key) {
                proof {
                    lemma_first_waiter_unique(s, key@, i as nat);
                }
                let c = self.waiters[i].client;
                self.waiters.remove(i);
                return Some(c);
            }
            i += 1;
        }
        proof {
            lemma_first_waiter_props(s, key@);
            if spec_first_waiter(s, key@) is Some {
                assert(false);
            }
        }
        None
    }

    /// Drop the record of `client` waiting on `key` (after its timeout).
    pub fn remove_waiter(&mut self, key: &Vec<u8>, client: u64)
        ensures
            match spec_waiter_index(old(self).waiters@, key@, client) {
                None => final(self).waiters@ == old(self).waiters@,
                Some(i) => final(self).waiters@ == old(self).waiters@.remove(i as int),
            },
    {
        let ghost s = self.waiters@;
        let mut i: usize = 0;
        while i < self.waiters.len()
            invariant
                s == self.waiters@,
                s == old(self).waiters@,
                i <= s.len(),
                forall|j: int|
                    0 <= j < i ==> !((#[trigger] s[j]).list_key@ == key@ && s[j].client
                        == client),
            decreases s.len() - i,
        {
            if bytes_eq(&self.waiters[i].list_key, key) && self.waiters[i].client == client {
                proof {
                    lemma_waiter_index_unique(s, key@, client, i as nat);
                }
                self.waiters.remove(i);
                return ;
            }
            i += 1;
        }
        proof {
            lemma_waiter_index_props(s, key@, client);
            if spec_waiter_index(s, key@, client) is Some {
                assert(false);
            }
        }
    }
}

/// Position of the first record of `client` waiting on `k`, if any.
pub open spec fn spec_waiter_index(s: Seq<BlockedClient>, k: Seq<u8>, c: u64) -> Option<nat>
    decreases s.len(),
{
    if s.len() == 0 {
        None
    } else if s[0].list_key@ == k && s[0].client == c {
        Some(0)
    } else {
        match spec_waiter_index(s.subrange(1, s.len() as int), k, c) {
            None => None,
            Some(i) => Some((i + 1) as nat),
        }
    }
}

/// What [`spec_waiter_index`] finds.
pub proof fn lemma_waiter_index_props(s: Seq<BlockedClient>, k: Seq<u8>, c: u64)
    ensures
        match spec_waiter_index(s, k, c) {
            Some(i) => i < s.len() && s[i as int].list_key@ == k && s[i as int].client == c,
            None => forall|j: int|
                0 <= j < s.len() ==> !((#[trigger] s[j]).list_key@ == k && s[j].client == c),
        },
    decreases s.len(),
{
    if s.len() > 0 && !(s[0].list_key@ == k && s[0].client == c) {
        let rest = s.subrange(1, s.len() as int);
        lemma_waiter_index_props(rest, k, c);
        match spec_waiter_index(rest, k, c) {
            Some(_) => {},
            None => {
                assert forall|j: int| 0 <= j < s.len() implies !((#[trigger] s[j]).list_key@ == k
                    && s[j].client == c) by {
                    if j > 0 {
                        assert(rest[j - 1] == s[j]);
                    }
                }
            },
        }
    }
}

/// The first matching record is determined by its characterization.
pub proof fn lemma_waiter_index_unique(s: Seq<BlockedClient>, k: Seq<u8>, c: u64, i: nat)
    requires
        i < s.len(),
        s[i as int].list_key@ == k,
        s[i as int].client == c,
        forall|j: int| 0 <= j < i ==> !((#[trigger] s[j]).list_key@ == k && s[j].client == c),
    ensures
        spec_waiter_index(s, k, c) == Some(i),
    decreases s.len(),
{
    if i > 0 {
        let rest = s.subrange(1, s.len() as int);
        assert forall|j: int| 0 <= j < i - 1 implies !((#[trigger] rest[j]).list_key@ == k
            && rest[j].client == c) by {
            assert(rest[j] == s[j + 1]);
        }
        assert(rest[i - 1] == s[i as int]);
        lemma_waiter_index_unique(rest, k, c, (i - 1) as nat);
    }
}

/// The `BLPOP` wake reply: the key and the delivered element.
pub fn blpop_wake_reply(key: Vec<u8>, value: Vec<u8>) -> (r: RespValue)
    ensures
        resp_view(r) == RespData::Array(
            seq![RespData::BulkString(key@), RespData::BulkString(value@)],
        ),
{
    let mut items: Vec<RespValue> = Vec::new();
    items.push(RespValue::BulkString(key));
    items.push(RespValue::BulkString(value));
    proof {
        lemma_resp_seq_view(items@);
        assert(items@.len() == 2);
        assert(resp_view(items@[0]) == RespData::BulkString(key@));
        assert(resp_view(items@[1]) == RespData::BulkString(value@));
        assert(resp_seq_view(items@) =~= seq![
            RespData::BulkString(key@),
            RespData::BulkString(value@),
        ]);
    }
    RespValue::Array(items)
}

/// What a push leaves in the list: the old contents with the new values
/// appended, or, pushing to the front, each value prepended in turn.
pub open spec fn pushed_list(
    old_list: Seq<Seq<u8>>,
    values: Seq<Seq<u8>>,
    front: bool,
) -> Seq<Seq<u8>> {
    if front {
        values.reverse() + old_list
    } else {
        old_list + values
    }
}

/// An array of bulk strings over the given byte sequences.
pub open spec fn bulk_array(items: Seq<Seq<u8>>) -> RespData {
    RespData::Array(items.map_values(|b: Seq<u8>| RespData::BulkString(b)))
}

/// Build the bulk-string array reply for a run of byte vectors.
pub fn bulk_array_reply(items: &Vec<Vec<u8>>) -> (r: RespValue)
    ensures
        resp_view(r) == bulk_array(views_of(items@)),
{
    let mut out: Vec<RespValue> = Vec::new();
    let mut i: usize = 0;
    proof {
        lemma_views_of(items@);
    }
    while i < items.len()
        invariant
            i <= items@.len(),
            views_of(items@).len() == items@.len(),
            forall|j: int| 0 <= j < items@.len() ==> views_of(items@)[j] == (#[trigger] items@[j])@,
            resp_seq_view(out@) == views_of(items@).subrange(0, i as int).map_values(
                |b: Seq<u8>| RespData::BulkString(b),
            ),
        decreases items@.len() - i,
    {
        let ghost out0 = out@;
        out.push(RespValue::BulkString(bytes_clone(&items[i])));
        proof {
            lemma_resp_seq_view_push(out0, out@.last());
            let f = |b: Seq<u8>| RespData::BulkString(b);
            let vs = views_of(items@);
            assert(vs.subrange(0, i as int + 1) =~= vs.subrange(0, i as int).push(
                vs[i as int],
            ));
            assert(vs.subrange(0, i as int + 1).map_values(f) =~= vs.subrange(
                0,
                i as int,
            ).map_values(f).push(f(vs[i as int])));
        }
        i += 1;
    }
    proof {
        assert(views_of(items@).subrange(0, items@.len() as int) =~= views_of(items@));
    }
    RespValue::Array(out)
}

/// Copy a run of byte vectors.
pub fn list_clone(v: &Vec<Vec<u8>>) -> (r: Vec<Vec<u8>>)
    ensures
        r@.len() == v@.len(),
        forall|i: int| 0 <= i < v@.len() ==> (#[trigger] r@[i])@ == v@[i]@,
{
    let mut r: Vec<Vec<u8>> = Vec::new();
    let mut i: usize = 0;
    while i < v.len()
        invariant
            i <= v@.len(),
            r@.len() == i,
            forall|j: int| 0 <= j < i ==> (#[trigger] r@[j])@ == v@[j]@,
        decreases v@.len() - i,
    {
        r.push(bytes_clone(&v[i]));
        i += 1;
    }
    r
}

impl Db {
    /// `RPUSH`/`LPUSH`: append the values (or prepend them one by one),
    /// reply with the new length, and hand the oldest `BLPOP` waiter on
    /// the key the new head, removing it from the stored list.
    pub fn handle_push(
        &mut self,
        key: &Vec<u8>,
        values: &Vec<Vec<u8>>,
        push_front: bool,
        now: u64,
        blocked: &mut BlockedClients,
    ) -> (r: (RespValue, Option<(u64, Vec<u8>, Vec<u8>)>))
        requires
            old(self).wf(),
            values@.len() > 0,
        ensures
            final(self).wf(),
            forall|k2: Seq<u8>|
                k2 != key@ ==> #[trigger] assoc_get(final(self).entries@, k2) == assoc_get(
                    old(self).entries@,
                    k2,
                ),
            ({
                let cur = live_get(old(self).entries@, key@, now);
                let old_list: Seq<Seq<u8>> = match cur {
                    Some(e) => match e.value {
                        ValueType::List(l) => views_of(l@),
                        _ => Seq::empty(),
                    },
                    None => Seq::empty(),
                };
                let bad = cur matches Some(e) && !(e.value is List);
                if bad {
                    &&& resp_view(r.0) == RespData::SimpleError(crate::replies::wrongtype_msg())
                    &&& r.1 is None
                    &&& final(blocked).waiters@ == old(blocked).waiters@
                    &&& assoc_get(final(self).entries@, key@) == assoc_get(
                        old(self).entries@,
                        key@,
                    )
                } else {
                    let pushed = pushed_list(old_list, views_of(values@), push_front);
                    &&& resp_view(r.0) == RespData::Integer(pushed.len() as i64 as int)
                    &&& match spec_first_waiter(old(blocked).waiters@, key@) {
                        None => {
                            &&& final(blocked).waiters@ == old(blocked).waiters@
                            &&& r.1 is None
                            &&& (assoc_get(final(self).entries@, key@) matches Some(e2)
                                && e2.expiry is None && (e2.value matches ValueType::List(nl)
                                && views_of(nl@) == pushed))
                        },
                        Some(i) => {
                            &&& final(blocked).waiters@ == old(blocked).waiters@.remove(i as int)
                            &&& (r.1 matches Some(t) && t.0 == old(
                                blocked,
                            ).waiters@[i as int].client && t.1@ == key@ && t.2@ == pushed[0])
                            &&& (assoc_get(final(self).entries@, key@) matches Some(e2)
                                && e2.expiry is None && (e2.value matches ValueType::List(nl)
                                && views_of(nl@) == pushed.subrange(1, pushed.len() as int)))
                        },
                    }
                }
            }),
    {
        let idx = self.live_index_of(key, now);
        let ghost old_list_view: Seq<Seq<u8>> = match live_get(old(self).entries@, key@, now) {
            Some(e) => match e.value {
                ValueType::List(l) => views_of(l@),
                _ => Seq::empty(),
            },
            None => Seq::empty(),
        };
        let mut list: Vec<Vec<u8>>;
        match idx {
            Some(i) => {
                match &self.entries[i].1.value {
                    ValueType::List(l) => {
                        list = list_clone(l);
                        proof {
                            let e = self.entries@[i as int].1;
                            assert(live_get(old(self).entries@, key@, now) == Some(e));
                            assert(e.value is List && e.value->List_0 == *l);
                            lemma_views_of(l@);
                            lemma_views_of(list@);
                            assert forall|j: int| 0 <= j < list@.len() implies views_of(
                                list@,
                            )[j] == views_of(l@)[j] by {
                                assert(views_of(list@)[j] == list@[j]@);
                                assert(views_of(l@)[j] == l@[j]@);
                                assert(list@[j]@ == l@[j]@);
                            }
                            assert(views_of(list@) =~= views_of(l@));
                            assert(views_of(list@) =~= old_list_view);
                        }
                    },
                    _ => {
                        return (reply_wrongtype(), None);
                    },
                }
            },
            None => {
                list = Vec::new();
                proof {
                    lemma_views_of(list@);
                    assert(views_of(list@) =~= old_list_view);
                }
            },
        }
        let ghost l0 = list@;
        let ghost pushed = pushed_list(old_list_view, views_of(values@), push_front);
        if push_front {
            // build the reversed values, then append the old contents
            let mut fresh: Vec<Vec<u8>> = Vec::new();
            let mut k: usize = 0;
            while k < values.len()
                invariant
                    k <= values@.len(),
                    fresh@.len() == k,
                    forall|j: int|
                        0 <= j < k ==> (#[trigger] fresh@[j])@ == values@[values@.len() - 1 - j]@,
                decreases values@.len() - k,
            {
                fresh.push(bytes_clone(&values[values.len() - 1 - k]));
                k += 1;
            }
            fresh.append(&mut list);
            list = fresh;
            proof {
                lemma_views_of(list@);
                lemma_views_of(values@);
                lemma_views_of(l0);
                assert forall|j: int| 0 <= j < list@.len() implies views_of(list@)[j]
                    == pushed[j] by {
                    if j < values@.len() {
                        assert(list@[j]@ == values@[values@.len() - 1 - j]@);
                        assert(views_of(values@).reverse()[j] == views_of(values@)[values@.len()
                            - 1 - j]);
                    } else {
                        assert(list@[j] == l0[j - values@.len()]);
                    }
                }
                assert(views_of(list@) =~= pushed);
            }
        } else {
            let mut k: usize = 0;
            while k < values.len()
                invariant
                    k <= values@.len(),
                    list@.len() == l0.len() + k,
                    forall|j: int| 0 <= j < l0.len() ==> (#[trigger] list@[j]) == l0[j],
                    forall|j: int|
                        l0.len() <= j < list@.len() ==> (#[trigger] list@[j])@ == values@[j
                            - l0.len()]@,
                decreases values@.len() - k,
            {
                list.push(bytes_clone(&values[k]));
                k += 1;
            }
            proof {
                lemma_views_of(list@);
                lemma_views_of(values@);
                lemma_views_of(l0);
                assert forall|j: int| 0 <= j < list@.len() implies views_of(list@)[j]
                    == pushed[j] by {
                    if j < l0.len() {
                        assert(list@[j] == l0[j]);
                    } else {
                        assert(list@[j]@ == values@[j - l0.len()]@);
                    }
                }
                assert(views_of(list@) =~= pushed);
            }
        }
        let n = list.len();
        match blocked.take_waiter(key) {
            None => {
                self.upsert(
                    bytes_clone(key),
                    KeyWithExpiry { value: ValueType::List(list), expiry: None },
                );
                let reply = RespValue::Integer(#[verifier::truncate] (n as i64));
                (reply, None)
            },
            Some(c) => {
                let ghost before = list@;
                let head = list.remove(0);
                proof {
                    lemma_views_of(before);
                    lemma_views_of(list@);
                    assert forall|j: int| 0 <= j < list@.len() implies views_of(list@)[j]
                        == pushed.subrange(1, pushed.len() as int)[j] by {
                        assert(list@[j] == before[j + 1]);
                    }
                    assert(views_of(list@) =~= pushed.subrange(1, pushed.len() as int));
                }
                self.upsert(
                    bytes_clone(key),
                    KeyWithExpiry { value: ValueType::List(list), expiry: None },
                );
                let reply = RespValue::Integer(#[verifier::truncate] (n as i64));
                (reply, Some((c, bytes_clone(key), head)))
            },
        }
    }
}

/// The index window `LRANGE start end` selects from a list of length
/// `len`: negative indices resolve from the end, and the window clamps
/// to the list.
pub open spec fn lrange_window(len: int, start: int, end: int) -> (int, int) {
    let s = if start < 0 {
        if len + start > 0 {
            len + start
        } else {
            0
        }
    } else {
        if start < len {
            start
        } else {
            len
        }
    };
    let e = if end < 0 {
        if len + end + 1 > 0 {
            len + end + 1
        } else {
            0
        }
    } else {
        if end + 1 < len {
            end + 1
        } else {
            len
        }
    };
    (s, e)
}

impl Db {
    /// `LRANGE`: the window of the list, with negative indices resolved
    /// against its length; an absent key reads as the empty list.
    pub fn handle_lrange(&mut self, key: &Vec<u8>, start: i64, end: i64, now: u64) -> (r:
        RespValue)
        requires
            old(self).wf(),
        ensures
            final(self).wf(),
            forall|k2: Seq<u8>|
                k2 != key@ ==> #[trigger] assoc_get(final(self).entries@, k2) == assoc_get(
                    old(self).entries@,
                    k2,
                ),
            match live_get(old(self).entries@, key@, now) {
                None => resp_view(r) == RespData::Array(Seq::empty()),
                Some(e) => match e.value {
                    ValueType::List(l) => ({
                        let w = lrange_window(l@.len() as int, start as int, end as int);
                        if w.0 < w.1 {
                            resp_view(r) == bulk_array(views_of(l@).subrange(w.0, w.1))
                        } else {
                            resp_view(r) == RespData::Array(Seq::empty())
                        }
                    }),
                    _ => resp_view(r) == RespData::SimpleError(crate::replies::wrongtype_msg()),
                },
            },
    {
        match self.live_index_of(key, now) {
            None => RespValue::Array(Vec::new()),
            Some(i) => {
                match &self.entries[i].1.value {
                    ValueType::List(l) => {
                        let len128 = l.len() as i128;
                        let s128: i128 = if (start as i128) < 0 {
                            if len128 + (start as i128) > 0 {
                                len128 + (start as i128)
                            } else {
                                0
                            }
                        } else {
                            if (start as i128) < len128 {
                                start as i128
                            } else {
                                len128
                            }
                        };
                        let e128: i128 = if (end as i128) < 0 {
                            if len128 + (end as i128) + 1 > 0 {
                                len128 + (end as i128) + 1
                            } else {
                                0
                            }
                        } else {
                            if (end as i128) + 1 < len128 {
                                (end as i128) + 1
                            } else {
                                len128
                            }
                        };
                        if s128 < e128 {
                            let a = s128 as usize;
                            let b = e128 as usize;
                            let mut window: Vec<Vec<u8>> = Vec::new();
                            let mut j: usize = a;
                            while j < b
                                invariant
                                    self.wf(),
                                    i < self.entries@.len(),
                                    self.entries@[i as int].1.value is List,
                                    l == self.entries@[i as int].1.value->List_0,
                                    a <= j <= b <= l@.len(),
                                    window@.len() == j - a,
                                    forall|x: int|
                                        0 <= x < window@.len() ==> (#[trigger] window@[x])@
                                            == l@[a + x]@,
                                decreases b - j,
                            {
                                window.push(bytes_clone(&l[j]));
                                j += 1;
                            }
                            let reply = bulk_array_reply(&window);
                            proof {
                                lemma_views_of(window@);
                                lemma_views_of(l@);
                                assert forall|x: int| 0 <= x < window@.len() implies views_of(
                                    window@,
                                )[x] == views_of(l@).subrange(a as int, b as int)[x] by {
                                    assert(views_of(window@)[x] == window@[x]@);
                                    assert(window@[x]@ == l@[a + x]@);
                                }
                                assert(views_of(window@) =~= views_of(l@).subrange(
                                    a as int,
                                    b as int,
                                ));
                            }
                            reply
                        } else {
                            RespValue::Array(Vec::new())
                        }
                    },
                    _ => reply_wrongtype(),
                }
            },
        }
    }

    /// `LLEN`: the length of the list; an absent key reads as zero.
    pub fn handle_llen(&mut self, key: &Vec<u8>, now: u64) -> (r: RespValue)
        requires
            old(self).wf(),
        ensures
            final(self).wf(),
            forall|k2: Seq<u8>|
                k2 != key@ ==> #[trigger] assoc_get(final(self).entries@, k2) == assoc_get(
                    old(self).entries@,
                    k2,
                ),
            match live_get(old(self).entries@, key@, now) {
                None => resp_view(r) == RespData::Integer(0),
                Some(e) => match e.value {
                    ValueType::List(l) => resp_view(r) == RespData::Integer(
                        l@.len() as i64 as int,
                    ),
                    _ => resp_view(r) == RespData::SimpleError(crate::replies::wrongtype_msg()),
                },
            },
    {
        match self.live_index_of(key, now) {
            None => RespValue::Integer(0),
            Some(i) => {
                match &self.entries[i].1.value {
                    ValueType::List(l) => RespValue::Integer(
                        #[verifier::truncate] (l.len() as i64),
                    ),
                    _ => reply_wrongtype(),
                }
            },
        }
    }

    /// `LPOP`: remove up to `count` elements from the front.  One
    /// element (the default) replies as a bulk string, an explicit count
    /// as an array (count zero pops nothing and answers the empty
    /// array); popping from an absent or empty list replies the null
    /// bulk; a negative count is out of range.
    pub fn handle_lpop(&mut self, key: &Vec<u8>, count: Option<i64>, now: u64) -> (r: RespValue)
        requires
            old(self).wf(),
        ensures
            final(self).wf(),
            forall|k2: Seq<u8>|
                k2 != key@ ==> #[trigger] assoc_get(final(self).entries@, k2) == assoc_get(
                    old(self).entries@,
                    k2,
                ),
            ({
                let req: int = match count {
                    None => 1,
                    Some(c) => c as int,
                };
                if req < 0 {
                    resp_view(r) == RespData::SimpleError(crate::replies::out_of_range_msg())
                } else {
                    match live_get(old(self).entries@, key@, now) {
                        None => resp_view(r) == RespData::NullBulkString,
                        Some(e) => match e.value {
                            ValueType::List(l) => ({
                                let lv = views_of(l@);
                                let n = if req < lv.len() {
                                    req
                                } else {
                                    lv.len() as int
                                };
                                &&& (assoc_get(final(self).entries@, key@) matches Some(e2)
                                    && e2.expiry == e.expiry && (e2.value matches ValueType::List(
                                    nl,
                                ) && views_of(nl@) == lv.subrange(n, lv.len() as int)))
                                &&& if req == 0 {
                                    resp_view(r) == RespData::Array(Seq::empty())
                                } else if n == 0 {
                                    resp_view(r) == RespData::NullBulkString
                                } else if count is None {
                                    resp_view(r) == RespData::BulkString(lv[0])
                                } else {
                                    resp_view(r) == bulk_array(lv.subrange(0, n))
                                }
                            }),
                            _ => resp_view(r) == RespData::SimpleError(
                                crate::replies::wrongtype_msg(),
                            ),
                        },
                    }
                }
            }),
    {
        let req: i64 = match count {
            None => 1,
            Some(c) => c,
        };
        if req < 0 {
            return crate::replies::reply_out_of_range();
        }
        match self.live_index_of(key, now) {
            None => reply_null_bulk(),
            Some(i) => {
                let expiry = self.entries[i].1.expiry;
                match &self.entries[i].1.value {
                    ValueType::List(l) => {
                        let lv_len = l.len();
                        let n: usize = if (req as u64) < (lv_len as u64) {
                            req as usize
                        } else {
                            lv_len
                        };
                        let mut popped: Vec<Vec<u8>> = Vec::new();
                        let mut rest: Vec<Vec<u8>> = Vec::new();
                        let mut j: usize = 0;
                        while j < l.len()
                            invariant
                                self.wf(),
                                i < self.entries@.len(),
                                self.entries@[i as int].1.value is List,
                                l == self.entries@[i as int].1.value->List_0,
                                n <= l@.len(),
                                j <= l@.len(),
                                popped@.len() == (if j < n {
                                    j as int
                                } else {
                                    n as int
                                }),
                                rest@.len() == (if j < n {
                                    0int
                                } else {
                                    j - n
                                }),
                                forall|x: int|
                                    0 <= x < popped@.len() ==> (#[trigger] popped@[x])@ == l@[x]@,
                                forall|x: int|
                                    0 <= x < rest@.len() ==> (#[trigger] rest@[x])@ == l@[n + x]@,
                            decreases l@.len() - j,
                        {
                            if j < n {
                                popped.push(bytes_clone(&l[j]));
                            } else {
                                rest.push(bytes_clone(&l[j]));
                            }
                            j += 1;
                        }
                        let ghost lv = views_of(l@);
                        proof {
                            lemma_views_of(l@);
                            lemma_views_of(popped@);
                            lemma_views_of(rest@);
                            assert forall|x: int| 0 <= x < rest@.len() implies views_of(
                                rest@,
                            )[x] == lv.subrange(n as int, lv.len() as int)[x] by {
                                assert(rest@[x]@ == l@[n + x]@);
                            }
                            assert(views_of(rest@) =~= lv.subrange(n as int, lv.len() as int));
                            assert forall|x: int| 0 <= x < popped@.len() implies views_of(
                                popped@,
                            )[x] == lv.subrange(0, n as int)[x] by {
                                assert(popped@[x]@ == l@[x]@);
                            }
                            assert(views_of(popped@) =~= lv.subrange(0, n as int));
                        }
                        let reply: RespValue = if req == 0 {
                            proof {
                                assert(crate::resp::resp_seq_view(Seq::<RespValue>::empty())
                                    =~= Seq::<RespData>::empty());
                            }
                            RespValue::Array(Vec::new())
                        } else if n == 0 {
                            reply_null_bulk()
                        } else if count.is_none() {
                            RespValue::BulkString(bytes_clone(&popped[0]))
                        } else {
                            bulk_array_reply(&popped)
                        };
                        self.upsert(
                            bytes_clone(key),
                            KeyWithExpiry { value: ValueType::List(rest), expiry },
                        );
                        reply
                    },
                    _ => reply_wrongtype(),
                }
            },
        }
    }

    /// `BLPOP`: pop the head at once when the list has one, answer the
    /// wrong-type error on another kind, and otherwise register the
    /// client as a waiter — the caller then blocks on its mailbox.
    pub fn handle_blpop(
        &mut self,
        key: &Vec<u8>,
        client: u64,
        now: u64,
        blocked: &mut BlockedClients,
    ) -> (r: Option<RespValue>)
        requires
            old(self).wf(),
        ensures
            final(self).wf(),
            forall|k2: Seq<u8>|
                k2 != key@ ==> #[trigger] assoc_get(final(self).entries@, k2) == assoc_get(
                    old(self).entries@,
                    k2,
                ),
            ({
                let cur = live_get(old(self).entries@, key@, now);
                let has = cur matches Some(e) && (e.value matches ValueType::List(l) && views_of(
                    l@,
                ).len() > 0);
                let bad = cur matches Some(e) && !(e.value is List);
                if bad {
                    &&& r matches Some(v) && resp_view(v) == RespData::SimpleError(
                        crate::replies::wrongtype_msg(),
                    )
                    &&& final(blocked).waiters@ == old(blocked).waiters@
                } else if has {
                    let e = cur->Some_0;
                    let lv = views_of(e.value->List_0@);
                    &&& r matches Some(v) && resp_view(v) == RespData::Array(
                        seq![RespData::BulkString(key@), RespData::BulkString(lv[0])],
                    )
                    &&& final(blocked).waiters@ == old(blocked).waiters@
                    &&& (assoc_get(final(self).entries@, key@) matches Some(e2) && e2.expiry
                        == e.expiry && (e2.value matches ValueType::List(nl) && views_of(nl@)
                        == lv.subrange(1, lv.len() as int)))
                } else {
                    let w = final(blocked).waiters@;
                    let w0 = old(blocked).waiters@;
                    &&& r is None
                    &&& w.len() == w0.len() + 1
                    &&& w.subrange(0, w0.len() as int) == w0
                    &&& w.last().list_key@ == key@
                    &&& w.last().client == client
                }
            }),
    {
        match self.live_index_of(key, now) {
            Some(i) => {
                let expiry = self.entries[i].1.expiry;
                match &self.entries[i].1.value {
                    ValueType::List(l) => {
                        if l.len() > 0 {
                            let mut rest: Vec<Vec<u8>> = Vec::new();
                            let head = bytes_clone(&l[0]);
                            let mut j: usize = 1;
                            while j < l.len()
                                invariant
                                    self.wf(),
                                    i < self.entries@.len(),
                                    self.entries@[i as int].1.value is List,
                                    l == self.entries@[i as int].1.value->List_0,
                                    1 <= j <= l@.len(),
                                    rest@.len() == j - 1,
                                    forall|x: int|
                                        0 <= x < rest@.len() ==> (#[trigger] rest@[x])@
                                            == l@[1 + x]@,
                                decreases l@.len() - j,
                            {
                                rest.push(bytes_clone(&l[j]));
                                j += 1;
                            }
                            let ghost lv = views_of(l@);
                            proof {
                                lemma_views_of(l@);
                                lemma_views_of(rest@);
                                assert forall|x: int| 0 <= x < rest@.len() implies views_of(
                                    rest@,
                                )[x] == lv.subrange(1, lv.len() as int)[x] by {
                                    assert(rest@[x]@ == l@[1 + x]@);
                                }
                                assert(views_of(rest@) =~= lv.subrange(1, lv.len() as int));
                                assert(lv[0] == l@[0]@);
                            }
                            let reply = blpop_wake_reply(bytes_clone(key), head);
                            self.upsert(
                                bytes_clone(key),
                                KeyWithExpiry { value: ValueType::List(rest), expiry },
                            );
                            Some(reply)
                        } else {
                            blocked.register(bytes_clone(key), client);
                            None
                        }
                    },
                    _ => Some(reply_wrongtype()),
                }
            },
            None => {
                blocked.register(bytes_clone(key), client);
                None
            },
        }
    }
}

} // verus!
