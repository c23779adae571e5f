//! The channel registry: for each channel, the subscribed clients in
//! subscription order.  A channel's count is the length of its client
//! list by construction, and a channel with no subscribers is dropped.

use vstd::prelude::*;

use crate::bytesutil::bytes_clone;
use crate::bytesutil::bytes_eq;

verus! {

/// The channel registry.
pub struct ChannelRegistry {
    pub channels: Vec<(Vec<u8>, Vec<u64>)>,
}

/// First-match lookup of a channel's subscriber list.
pub open spec fn chan_get(s: Seq<(Vec<u8>, Vec<u64>)>, c: Seq<u8>) -> Option<Seq<u64>>
    decreases s.len(),
{
    if s.len() == 0 {
        None
    } else if s[0].0@ == c {
        Some(s[0].1@)
    } else {
        chan_get(s.subrange(1, s.len() as int), c)
    }
}

/// No two entries share a channel name.
pub open spec fn chans_unique(s: Seq<(Vec<u8>, Vec<u64>)>) -> bool {
    forall|i: int, j: int|
        0 <= i < j < s.len() ==> (#[trigger] s[i]).0@ != (#[trigger] s[j]).0@
}

/// With unique channels, the lookup finds the entry at any index that
/// carries the channel.
pub proof fn lemma_chan_get_char(s: Seq<(Vec<u8>, Vec<u64>)>, c: Seq<u8>)
    requires
        chans_unique(s),
    ensures
        (chan_get(s, c) is Some <==> exists|i: int|
            0 <= i < s.len() && (#[trigger] s[i]).0@ == c),
        forall|i: int|
            0 <= i < s.len() && (#[trigger] s[i]).0@ == c ==> chan_get(s, c) == Some(s[i].1@),
    decreases s.len(),
{
    if s.len() > 0 {
        let rest = s.subrange(1, s.len() as int);
        assert forall|i: int, j: int| 0 <= i < j < rest.len() implies (#[trigger] rest[i]).0@
            != (#[trigger] rest[j]).0@ by {
            assert(rest[i] == s[i + 1] && rest[j] == s[j + 1]);
        }
        lemma_chan_get_char(rest, c);
        if s[0].0@ == c {
            assert forall|i: int|
                0 <= i < s.len() && (#[trigger] s[i]).0@ == c implies chan_get(s, c) == Some(
                s[i].1@,
            ) by {
                if i > 0 {
                    assert(s[0].0@ != s[i].0@);
                }
            }
        } else {
            if chan_get(s, c) is Some {
                let i = choose|i: int| 0 <= i < rest.len() && (#[trigger] rest[i]).0@ == c;
                assert(s[i + 1] == rest[i]);
            }
            if exists|i: int| 0 <= i < s.len() && (#[trigger] s[i]).0@ == c {
                let i = choose|i: int| 0 <= i < s.len() && (#[trigger] s[i]).0@ == c;
                assert(i > 0);
                assert(rest[i - 1] == s[i]);
            }
            assert forall|i: int|
                0 <= i < s.len() && (#[trigger] s[i]).0@ == c implies chan_get(s, c) == Some(
                s[i].1@,
            ) by {
                assert(i > 0);
                assert(rest[i - 1] == s[i]);
            }
        }
    }
}

/// A subscriber list without one client, order kept.
pub open spec fn ids_without(l: Seq<u64>, c: u64) -> Seq<u64>
    decreases l.len(),
{
    if l.len() == 0 {
        Seq::empty()
    } else {
        (if l[0] == c {
            Seq::<u64>::empty()
        } else {
            seq![l[0]]
        }) + ids_without(l.subrange(1, l.len() as int), c)
    }
}

/// Appending one id appends it to the filtered list unless it is the
/// dropped client.
pub proof fn lemma_ids_without_snoc(l: Seq<u64>, x: u64, c: u64)
    ensures
        ids_without(l.push(x), c) == ids_without(l, c) + (if x == c {
            Seq::<u64>::empty()
        } else {
            seq![x]
        }),
    decreases l.len(),
{
    let tail: Seq<u64> = if x == c {
        Seq::empty()
    } else {
        seq![x]
    };
    let q = l.push(x);
    if l.len() == 0 {
        assert(q[0] == x);
        assert(q.subrange(1, q.len() as int) =~= Seq::<u64>::empty());
        assert(ids_without(Seq::<u64>::empty(), c) == Seq::<u64>::empty());
        assert(ids_without(q, c) =~= ids_without(l, c) + tail);
    } else {
        let rest = l.subrange(1, l.len() as int);
        lemma_ids_without_snoc(rest, x, c);
        assert(q[0] == l[0]);
        assert(q.subrange(1, q.len() as int) =~= rest.push(x));
        let h0: Seq<u64> = if l[0] == c {
            Seq::empty()
        } else {
            seq![l[0]]
        };
        assert(ids_without(q, c) == h0 + ids_without(rest.push(x), c));
        assert(ids_without(l, c) == h0 + ids_without(rest, c));
        vstd::seq_lib::lemma_concat_associative(h0, ids_without(rest, c), tail);
        assert(ids_without(q, c) =~= ids_without(l, c) + tail);
    }
}

impl ChannelRegistry {
    /// The registry invariant: channel names unique.
    pub open spec fn wf(self) -> bool {
        chans_unique(self.channels@)
    }

    /// The number of subscribers of a channel.
    pub open spec fn spec_count(self, c: Seq<u8>) -> int {
        match chan_get(self.channels@, c) {
            Some(l) => l.len() as int,
            None => 0,
        }
    }

    /// An empty registry.
    pub fn new() -> (r: ChannelRegistry)
        ensures
            r.wf(),
            r.channels@.len() == 0,
    {
        ChannelRegistry { channels: Vec::new() }
    }

    /// Index of a channel, if registered.
    fn chan_index(&self, c: &Vec<u8>) -> (r: Option<usize>)
        ensures
            match r {
                Some(i) => i < self.channels@.len() && self.channels@[i as int].0@ == c@,
                None => forall|j: int|
                    0 <= j < self.channels@.len() ==> (#[trigger] self.channels@[j]).0@ != c@,
            },
    {
        let mut i: usize = 0;
        while i < self.channels.len()
            invariant
                i <= self.channels@.len(),
                forall|j: int| 0 <= j < i ==> (#[trigger] self.channels@[j]).0@ != c@,
            decreases self.channels@.len() - i,
        {
            if bytes_eq(&self.channels[i].0, c) {
                return Some(i);
            }
            i += 1;
        }
        None
    }

    /// Record that `client` subscribed to `channel`; a client already on
    /// the list is not added twice.
    pub fn subscribe(&mut self, channel: &Vec<u8>, client: u64)
        requires
            old(self).wf(),
        ensures
            final(self).wf(),
            forall|c2: Seq<u8>|
                c2 != channel@ ==> #[trigger] chan_get(final(self).channels@, c2) == chan_get(
                    old(self).channels@,
                    c2,
                ),
            ({
                let l0 = match chan_get(old(self).channels@, channel@) {
                    Some(l) => l,
                    None => Seq::empty(),
                };
                chan_get(final(self).channels@, channel@) == Some(
                    if l0.contains(client) {
                        l0
                    } else {
                        l0.push(client)
                    },
                )
            }),
    {
        let ghost s = self.channels@;
        match self.chan_index(channel) {
            Some(i) => {
                proof {
                    lemma_chan_get_char(s, channel@);
                }
                let mut present = false;
                let n = self.channels[i].1.len();
                let mut j: usize = 0;
                while j < n
                    invariant
                        s == self.channels@,
                        i < self.channels@.len(),
                        n == self.channels@[i as int].1.len(),
                        j <= n,
                        present <==> exists|x: int|
                            0 <= x < j && (#[trigger] self.channels@[i as int].1@[x]) == client,
                    decreases n - j,
                {
                    if self.channels[i].1[j] == client {
                        present = true;
                        j = n;
                    } else {
                        j += 1;
                    }
                }
                proof {
                    if present {
                        assert(s[i as int].1@.contains(client));
                    } else {
                        if s[i as int].1@.contains(client) {
                            let x = choose|x: int|
                                0 <= x < s[i as int].1@.len() && s[i as int].1@[x] == client;
                            assert(false);
                        }
                    }
                }
                if !present {
                    let ghost l0 = self.channels@[i as int].1@;
                    let mut entry = (
                        bytes_clone(&self.channels[i].0),
                        crate::pubsub::ids_clone(&self.channels[i].1),
                    );
                    entry.1.push(client);
                    proof {
                        assert(entry.0@ == s[i as int].0@);
                        assert(entry.1@ =~= l0.push(client));
                    }
                    self.channels.set(i, entry);
                    proof {
                        assert forall|a: int, b: int|
                            0 <= a < b < self.channels@.len() implies (
                        #[trigger] self.channels@[a]).0@ != (#[trigger] self.channels@[b]).0@ by {
                            assert(self.channels@[a].0@ == s[a].0@);
                            assert(self.channels@[b].0@ == s[b].0@);
                        }
                        lemma_chan_get_char(self.channels@, channel@);
                        assert(self.channels@[i as int].0@ == channel@);
                        assert forall|c2: Seq<u8>| c2 != channel@ implies #[trigger] chan_get(
                            self.channels@,
                            c2,
                        ) == chan_get(s, c2) by {
                            lemma_chan_get_char(s, c2);
                            lemma_chan_get_char(self.channels@, c2);
                            if chan_get(s, c2) is Some {
                                let x = choose|x: int|
                                    0 <= x < s.len() && (#[trigger] s[x]).0@ == c2;
                                assert(x != i);
                                assert(self.channels@[x] == s[x]);
                            } else {
                                if chan_get(self.channels@, c2) is Some {
                                    let x = choose|x: int|
                                        0 <= x < self.channels@.len() && (
                                        #[trigger] self.channels@[x]).0@ == c2;
                                    assert(x != i);
                                    assert(self.channels@[x] == s[x]);
                                    assert(false);
                                }
                            }
                        }
                    }
                }
            },
            None => {
                proof {
                    lemma_chan_get_char(s, channel@);
                }
                let mut ids: Vec<u64> = Vec::new();
                ids.push(client);
                let ghost p = (channel@, ids@);
                self.channels.push((bytes_clone(channel), ids));
                proof {
                    let t = self.channels@;
                    assert(t[s.len() as int].0@ == channel@);
                    assert forall|a: int, b: int| 0 <= a < b < t.len() implies (#[trigger] t[a]).0@
                        != (#[trigger] t[b]).0@ by {
                        if b < s.len() {
                            assert(t[a] == s[a] && t[b] == s[b]);
                        } else {
                            assert(t[a] == s[a]);
                        }
                    }
                    lemma_chan_get_char(t, channel@);
                    assert(Seq::<u64>::empty().push(client) =~= t[s.len() as int].1@);
                    assert(!Seq::<u64>::empty().contains(client));
                    assert forall|c2: Seq<u8>| c2 != channel@ implies #[trigger] chan_get(t, c2)
                        == chan_get(s, c2) by {
                        lemma_chan_get_char(s, c2);
                        lemma_chan_get_char(t, c2);
                        if chan_get(s, c2) is Some {
                            let x = choose|x: int| 0 <= x < s.len() && (#[trigger] s[x]).0@ == c2;
                            assert(t[x] == s[x]);
                        } else {
                            if chan_get(t, c2) is Some {
                                let x = choose|x: int|
                                    0 <= x < t.len() && (#[trigger] t[x]).0@ == c2;
                                assert(x < s.len() ==> t[x] == s[x]);
                                assert(false);
                            }
                        }
                    }
                }
            },
        }
    }

    /// Drop `client` from `channel`: the channel's list afterwards is
    /// exactly the old list without that client, and the channel itself
    /// is gone once that list is empty.
    pub fn unsubscribe(&mut self, channel: &Vec<u8>, client: u64)
        requires
            old(self).wf(),
        ensures
            final(self).wf(),
            forall|c2: Seq<u8>|
                c2 != channel@ ==> #[trigger] chan_get(final(self).channels@, c2) == chan_get(
                    old(self).channels@,
                    c2,
                ),
            match chan_get(old(self).channels@, channel@) {
                None => final(self).channels@ == old(self).channels@,
                Some(l0) => ({
                    let kept = ids_without(l0, client);
                    if kept.len() == 0 {
                        chan_get(final(self).channels@, channel@) is None
                    } else {
                        chan_get(final(self).channels@, channel@) == Some(kept)
                    }
                }),
            },
    {
        let ghost s = self.channels@;
        match self.chan_index(channel) {
            None => {
                proof {
                    lemma_chan_get_char(s, channel@);
                }
            },
            Some(i) => {
                proof {
                    lemma_chan_get_char(s, channel@);
                }
                let ghost l0 = s[i as int].1@;
                let mut kept: Vec<u64> = Vec::new();
                let n = self.channels[i].1.len();
                let mut j: usize = 0;
                proof {
                    assert(l0.subrange(0, 0) =~= Seq::<u64>::empty());
                }
                while j < n
                    invariant
                        s == self.channels@,
                        i < self.channels@.len(),
                        l0 == s[i as int].1@,
                        n == l0.len(),
                        j <= n,
                        kept@ == ids_without(l0.subrange(0, j as int), client),
                    decreases n - j,
                {
                    let v = self.channels[i].1[j];
                    if v != client {
                        kept.push(v);
                    }
                    proof {
                        let pre = l0.subrange(0, j as int);
                        let post = l0.subrange(0, j as int + 1);
                        assert(post =~= pre.push(l0[j as int]));
                        lemma_ids_without_snoc(pre, l0[j as int], client);
                        if v != client {
                            assert(kept@ =~= ids_without(post, client));
                        } else {
                            assert(kept@ =~= ids_without(post, client));
                        }
                    }
                    j += 1;
                }
                proof {
                    assert(l0.subrange(0, n as int) =~= l0);
                }
                if kept.len() == 0 {
                    proof {
                        lemma_chan_remove_idx(s, i as int);
                    }
                    self.channels.remove(i);
                } else {
                    let name = bytes_clone(&self.channels[i].0);
                    proof {
                        assert(name@ == s[i as int].0@);
                    }
                    self.channels.set(i, (name, kept));
                    proof {
                        let t = self.channels@;
                        assert forall|a: int, b: int| 0 <= a < b < t.len() implies (
                        #[trigger] t[a]).0@ != (#[trigger] t[b]).0@ by {
                            assert(t[a].0@ == s[a].0@ && t[b].0@ == s[b].0@);
                        }
                        lemma_chan_get_char(t, channel@);
                        assert(t[i as int].0@ == channel@);
                        assert(t[i as int].1@ == ids_without(l0, client));
                        assert forall|c2: Seq<u8>| c2 != channel@ implies #[trigger] chan_get(
                            t,
                            c2,
                        ) == chan_get(s, c2) by {
                            lemma_chan_get_char(s, c2);
                            lemma_chan_get_char(t, c2);
                            if chan_get(s, c2) is Some {
                                let x = choose|x: int|
                                    0 <= x < s.len() && (#[trigger] s[x]).0@ == c2;
                                assert(x != i);
                                assert(t[x] == s[x]);
                            } else {
                                if chan_get(t, c2) is Some {
                                    let x = choose|x: int|
                                        0 <= x < t.len() && (#[trigger] t[x]).0@ == c2;
                                    assert(x != i);
                                    assert(t[x] == s[x]);
                                    assert(false);
                                }
                            }
                        }
                    }
                }
            },
        }
    }

    /// The subscriber count and the subscribers of a channel, for
    /// `PUBLISH` fan-out.  The count is always the length of the list:
    /// the registry cannot drift.
    pub fn publish_targets(&self, channel: &Vec<u8>) -> (r: (i64, Vec<u64>))
        requires
            self.wf(),
        ensures
            ({
                let l = match chan_get(self.channels@, channel@) {
                    Some(l) => l,
                    None => Seq::empty(),
                };
                r.1@ == l && r.0 == l.len() as i64 as int && r.0 == self.spec_count(
                    channel@,
                ) as i64 as int
            }),
    {
        match self.chan_index(channel) {
            None => {
                proof {
                    lemma_chan_get_char(self.channels@, channel@);
                }
                (0, Vec::new())
            },
            Some(i) => {
                proof {
                    lemma_chan_get_char(self.channels@, channel@);
                }
                let ids = ids_clone(&self.channels[i].1);
                let n = #[verifier::truncate] (ids.len() as i64);
                (n, ids)
            },
        }
    }
}

/// Removing the entry at an index drops its channel and no other.
pub proof fn lemma_chan_remove_idx(s: Seq<(Vec<u8>, Vec<u64>)>, i: int)
    requires
        chans_unique(s),
        0 <= i < s.len(),
    ensures
        chans_unique(s.remove(i)),
        chan_get(s.remove(i), s[i].0@) is None,
        forall|c2: Seq<u8>|
            c2 != s[i].0@ ==> #[trigger] chan_get(s.remove(i), c2) == chan_get(s, c2),
{
    let t = s.remove(i);
    assert(t =~= s.subrange(0, i) + s.subrange(i + 1, s.len() as int));
    assert forall|j: int| 0 <= j < t.len() implies #[trigger] t[j] == (if j < i {
        s[j]
    } else {
        s[j + 1]
    }) by {}
    assert(chans_unique(t)) by {
        assert forall|a: int, b: int| 0 <= a < b < t.len() implies (#[trigger] t[a]).0@
            != (#[trigger] t[b]).0@ by {
            let a2 = if a < i { a } else { a + 1 };
            let b2 = if b < i { b } else { b + 1 };
            assert(t[a] == s[a2] && t[b] == s[b2]);
        }
    }
    lemma_chan_get_char(s, s[i].0@);
    lemma_chan_get_char(t, s[i].0@);
    if chan_get(t, s[i].0@) is Some {
        let j = choose|j: int| 0 <= j < t.len() && (#[trigger] t[j]).0@ == s[i].0@;
        let j2 = if j < i { j } else { j + 1 };
        assert(s[j2].0@ == s[i].0@ && j2 != i);
        assert(false);
    }
    assert forall|c2: Seq<u8>| c2 != s[i].0@ implies #[trigger] chan_get(t, c2) == chan_get(
        s,
        c2,
    ) by {
        lemma_chan_get_char(s, c2);
        lemma_chan_get_char(t, c2);
        if chan_get(s, c2) is Some {
            let j = choose|j: int| 0 <= j < s.len() && (#[trigger] s[j]).0@ == c2;
            assert(j != i);
            let j2 = if j < i { j } else { j - 1 };
            assert(t[j2] == s[j]);
            assert(chan_get(t, c2) == Some(t[j2].1@));
        } else {
            if chan_get(t, c2) is Some {
                let j = choose|j: int| 0 <= j < t.len() && (#[trigger] t[j]).0@ == c2;
                let j2 = if j < i { j } else { j + 1 };
                assert(s[j2].0@ == c2);
                assert(false);
            }
        }
    }
}

/// Copy a list of client ids.
pub fn ids_clone(v: &Vec<u64>) -> (r: Vec<u64>)
    ensures
        r@ == v@,
{
    let mut r: Vec<u64> = Vec::new();
    let mut i: usize = 0;
    while i < v.len()
        invariant
            i <= v@.len(),
            r@ =~= v@.subrange(0, i as int),
        decreases v@.len() - i,
    {
        r.push(v[i]);
        i += 1;
    }
    proof {
        assert(r@ =~= v@);
    }
    r
}

} // verus!
