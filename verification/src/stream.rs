//! Streams: append-only logs of entries keyed by `ms-seq` ids.  The ids
//! are strictly increasing over the log, and `0-0` never appears — that
//! invariant is part of every well-formed keyspace.

use vstd::prelude::*;

use crate::bytesutil::bytes_clone;
use crate::bytesutil::all_digits;
use crate::bytesutil::dec_val;
use crate::bytesutil::spec_u64_digits;
use crate::bytesutil::u64_to_dec;
use crate::score::spec_find_byte;
use crate::replies::reply_wrongtype;
use crate::resp::RespData;
use crate::resp::RespValue;
use crate::resp::resp_view;
use crate::store::Db;
use crate::store::KeyWithExpiry;
use crate::store::ValueType;
use crate::store::assoc_get;
use crate::store::live_get;

verus! {

/// One stream entry: its id as the two unsigned halves of `ms-seq`, and
/// the field/value pairs it carries.
pub struct StreamEntry {
    pub ms: u64,
    pub seq: u64,
    pub fields: Vec<(Vec<u8>, Vec<u8>)>,
}

/// A stream: the entries in insertion order.
pub struct Stream {
    pub entries: Vec<StreamEntry>,
}

/// Strict order on stream ids: by `ms`, then by `seq`.
pub open spec fn id_lt(ams: u64, aseq: u64, bms: u64, bseq: u64) -> bool {
    ams < bms || (ams == bms && aseq < bseq)
}

/// Ids strictly increase along the log and `0-0` never appears.
pub open spec fn stream_wf(s: Stream) -> bool {
    &&& forall|i: int, j: int|
        0 <= i < j < s.entries@.len() ==> id_lt(
            (#[trigger] s.entries@[i]).ms,
            s.entries@[i].seq,
            (#[trigger] s.entries@[j]).ms,
            s.entries@[j].seq,
        )
    &&& forall|i: int|
        0 <= i < s.entries@.len() ==> !((#[trigger] s.entries@[i]).ms == 0 && s.entries@[i].seq
            == 0)
}

impl StreamEntry {
    /// The id of this entry.
    pub fn get_id(&self) -> (r: (u64, u64))
        ensures
            r.0 == self.ms && r.1 == self.seq,
    {
        (self.ms, self.seq)
    }

    /// The fields of this entry.
    pub fn get_fields(&self) -> (r: &Vec<(Vec<u8>, Vec<u8>)>)
        ensures
            r == &self.fields,
    {
        &self.fields
    }
}

impl Stream {
    /// An empty stream.
    pub fn new() -> (r: Stream)
        ensures
            r.entries@.len() == 0,
            stream_wf(r),
    {
        Stream { entries: Vec::new() }
    }

    /// All entries, oldest first.
    pub fn get_entries(&self) -> (r: &Vec<StreamEntry>)
        ensures
            r == &self.entries,
    {
        &self.entries
    }

    /// The id of the newest entry, if any.
    pub fn get_largest_id(&self) -> (r: Option<(u64, u64)>)
        ensures
            self.entries@.len() == 0 ==> r is None,
            self.entries@.len() > 0 ==> r == Some(
                (self.entries@.last().ms, self.entries@.last().seq),
            ),
    {
        if self.entries.len() == 0 {
            None
        } else {
            let e = &self.entries[self.entries.len() - 1];
            Some((e.ms, e.seq))
        }
    }
}

/// The id given to `XADD`: fully automatic, an explicit time with an
/// automatic sequence, or fully explicit.
pub enum XaddId {
    Auto,
    AutoSeq(u64),
    Explicit(u64, u64),
}

/// Non-strict id order.
pub open spec fn id_le(ams: u64, aseq: u64, bms: u64, bseq: u64) -> bool {
    ams < bms || (ams == bms && aseq <= bseq)
}

/// Why an `XADD` id was rejected.
#[derive(Debug)]
pub enum XaddError {
    /// The id `0-0` is never accepted.
    Zero,
    /// The id does not exceed the newest entry's id.
    NotGreater,
}

/// The id an `XADD` stores, given the stream's newest id: an automatic
/// time uses the wall clock; an automatic sequence continues the newest
/// entry's sequence when the times match and restarts at zero otherwise.
pub open spec fn generated_id(
    id: XaddId,
    wall_ms: u64,
    top: Option<(u64, u64)>,
) -> (u64, u64) {
    let ms = match id {
        XaddId::Auto => wall_ms,
        XaddId::AutoSeq(m) => m,
        XaddId::Explicit(m, _) => m,
    };
    match id {
        XaddId::Explicit(m, s) => (m, s),
        _ => {
            let seq: u64 = match top {
                Some(t) => if t.0 == ms && t.1 < u64::MAX {
                    (t.1 + 1) as u64
                } else if t.0 == ms {
                    u64::MAX
                } else {
                    0
                },
                None => 0,
            };
            (ms, seq)
        },
    }
}

/// The parse of an `XADD` id: `*`, `ms-*`, `ms-seq`, or a bare `ms`
/// (sequence zero), with every number a plain decimal fitting a `u64`.
pub open spec fn spec_parse_xadd_id(b: Seq<u8>) -> Option<XaddId> {
    if b == seq![42u8] {
        Some(XaddId::Auto)
    } else {
        match spec_find_byte(b, 45) {
            None => if b.len() > 0 && all_digits(b) && dec_val(b) <= u64::MAX {
                Some(XaddId::Explicit(dec_val(b) as u64, 0))
            } else {
                None
            },
            Some(d) => {
                let pre = b.subrange(0, d as int);
                let post = b.subrange(d as int + 1, b.len() as int);
                if !(pre.len() > 0 && all_digits(pre) && dec_val(pre) <= u64::MAX) {
                    None
                } else if post == seq![42u8] {
                    Some(XaddId::AutoSeq(dec_val(pre) as u64))
                } else if post.len() > 0 && all_digits(post) && dec_val(post) <= u64::MAX {
                    Some(XaddId::Explicit(dec_val(pre) as u64, dec_val(post) as u64))
                } else {
                    None
                }
            },
        }
    }
}

/// Parse an `XADD` id, exactly as [`spec_parse_xadd_id`] says.
pub fn parse_xadd_id(b: &Vec<u8>) -> (r: Option<XaddId>)
    ensures
        r == spec_parse_xadd_id(b@),
{
    if b.len() == 1 && b[0] == 42 {
        proof {
            assert(b@ =~= seq![42u8]);
        }
        return Some(XaddId::Auto);
    }
    proof {
        if b@ == seq![42u8] {
            assert(b@.len() == 1 && b@[0] == 42);
            assert(false);
        }
    }
    match crate::score::find_byte(b, 45) {
        None => {
            match crate::bytesutil::parse_u64(b) {
                Some(m) => Some(XaddId::Explicit(m, 0)),
                None => None,
            }
        },
        Some(d) => {
            let mut pre: Vec<u8> = Vec::new();
            let mut i: usize = 0;
            while i < d
                invariant
                    i <= d < b@.len(),
                    pre@ =~= b@.subrange(0, i as int),
                decreases d - i,
            {
                pre.push(b[i]);
                i += 1;
            }
            let mut post: Vec<u8> = Vec::new();
            let mut j: usize = d + 1;
            while j < b.len()
                invariant
                    d + 1 <= j <= b@.len(),
                    post@ =~= b@.subrange(d as int + 1, j as int),
                decreases b@.len() - j,
            {
                post.push(b[j]);
                j += 1;
            }
            proof {
                assert(post@ =~= b@.subrange(d as int + 1, b@.len() as int));
            }
            match crate::bytesutil::parse_u64(&pre) {
                None => None,
                Some(m) => {
                    if post.len() == 1 && post[0] == 42 {
                        proof {
                            assert(post@ =~= seq![42u8]);
                        }
                        Some(XaddId::AutoSeq(m))
                    } else {
                        proof {
                            if post@ == seq![42u8] {
                                assert(post@.len() == 1 && post@[0] == 42);
                                assert(false);
                            }
                        }
                        match crate::bytesutil::parse_u64(&post) {
                            Some(s) => Some(XaddId::Explicit(m, s)),
                            None => None,
                        }
                    }
                },
            }
        },
    }
}

/// The canonical `ms-seq` byte form of an id.
pub open spec fn id_bytes(ms: u64, seq: u64) -> Seq<u8> {
    spec_u64_digits(ms as nat) + seq![45u8] + spec_u64_digits(seq as nat)
}

/// Render an id as `ms-seq`.
pub fn format_id(ms: u64, seq: u64) -> (r: Vec<u8>)
    ensures
        r@ == id_bytes(ms, seq),
{
    let mut out = u64_to_dec(ms);
    out.push(45);
    let mut tail = u64_to_dec(seq);
    out.append(&mut tail);
    proof {
        assert(out@ =~= id_bytes(ms, seq));
    }
    out
}

impl Stream {
    /// Append one entry under the `XADD` id rules: resolve the id, refuse
    /// `0-0` and any id not strictly above the newest entry.
    pub fn add_entry(
        &mut self,
        id: XaddId,
        wall_ms: u64,
        fields: Vec<(Vec<u8>, Vec<u8>)>,
    ) -> (r: Result<(u64, u64), XaddError>)
        requires
            stream_wf(*old(self)),
        ensures
            stream_wf(*final(self)),
            ({
                let top = if old(self).entries@.len() == 0 {
                    None
                } else {
                    Some((old(self).entries@.last().ms, old(self).entries@.last().seq))
                };
                let g = generated_id(id, wall_ms, top);
                match r {
                    Ok(newid) => {
                        &&& newid == g
                        &&& !(g.0 == 0 && g.1 == 0)
                        &&& match top {
                            Some(t) => id_lt(t.0, t.1, g.0, g.1),
                            None => true,
                        }
                        &&& final(self).entries@.len() == old(self).entries@.len() + 1
                        &&& final(self).entries@.subrange(0, old(self).entries@.len() as int)
                            == old(self).entries@
                        &&& final(self).entries@.last().ms == g.0
                        &&& final(self).entries@.last().seq == g.1
                        &&& final(self).entries@.last().fields == fields
                    },
                    Err(XaddError::Zero) => *final(self) == *old(self) && g.0 == 0 && g.1 == 0,
                    Err(XaddError::NotGreater) => *final(self) == *old(self) && !(g.0 == 0 && g.1
                        == 0) && (top matches Some(t) && !id_lt(t.0, t.1, g.0, g.1)),
                }
            }),
    {
        let top: Option<(u64, u64)> = self.get_largest_id();
        let ms: u64;
        let seq: u64;
        match id {
            XaddId::Explicit(m, s) => {
                ms = m;
                seq = s;
            },
            XaddId::Auto => {
                ms = wall_ms;
                seq = match top {
                    Some(t) => if t.0 == ms && t.1 < u64::MAX {
                        t.1 + 1
                    } else if t.0 == ms {
                        u64::MAX
                    } else {
                        0
                    },
                    None => 0,
                };
            },
            XaddId::AutoSeq(m) => {
                ms = m;
                seq = match top {
                    Some(t) => if t.0 == ms && t.1 < u64::MAX {
                        t.1 + 1
                    } else if t.0 == ms {
                        u64::MAX
                    } else {
                        0
                    },
                    None => 0,
                };
            },
        }
        if ms == 0 && seq == 0 {
            return Err(XaddError::Zero);
        }
        match top {
            Some(t) => {
                if !(t.0 < ms || (t.0 == ms && t.1 < seq)) {
                    return Err(XaddError::NotGreater);
                }
            },
            None => {},
        }
        let ghost e0 = self.entries@;
        self.entries.push(StreamEntry { ms, seq, fields });
        proof {
            assert(self.entries@.subrange(0, e0.len() as int) =~= e0);
            assert forall|i: int, j: int|
                0 <= i < j < self.entries@.len() implies id_lt(
                (#[trigger] self.entries@[i]).ms,
                self.entries@[i].seq,
                (#[trigger] self.entries@[j]).ms,
                self.entries@[j].seq,
            ) by {
                if j < e0.len() {
                    assert(self.entries@[i] == e0[i] && self.entries@[j] == e0[j]);
                } else {
                    assert(self.entries@[i] == e0[i]);
                    assert(self.entries@[j].ms == ms && self.entries@[j].seq == seq);
                    if i < e0.len() - 1 {
                        assert(id_lt(e0[i].ms, e0[i].seq, e0.last().ms, e0.last().seq));
                    }
                }
            }
            assert forall|i: int|
                0 <= i < self.entries@.len() implies !((#[trigger] self.entries@[i]).ms == 0
                && self.entries@[i].seq == 0) by {
                if i < e0.len() {
                    assert(self.entries@[i] == e0[i]);
                }
            }
        }
        Ok((ms, seq))
    }
}

/// The byte views of an entry's field/value pairs.
pub open spec fn fields_view(f: Seq<(Vec<u8>, Vec<u8>)>) -> Seq<(Seq<u8>, Seq<u8>)>
    decreases f.len(),
{
    if f.len() == 0 {
        Seq::empty()
    } else {
        seq![(f[0].0@, f[0].1@)] + fields_view(f.subrange(1, f.len() as int))
    }
}

/// The field views are the pairs' views, pointwise.
pub proof fn lemma_fields_view(f: Seq<(Vec<u8>, Vec<u8>)>)
    ensures
        fields_view(f).len() == f.len(),
        forall|i: int|
            0 <= i < f.len() ==> fields_view(f)[i] == ((#[trigger] f[i]).0@, f[i].1@),
    decreases f.len(),
{
    if f.len() > 0 {
        let rest = f.subrange(1, f.len() as int);
        lemma_fields_view(rest);
        assert forall|i: int| 0 <= i < f.len() implies fields_view(f)[i] == ((#[trigger] f[i]).0@,
        f[i].1@) by {
            if i > 0 {
                assert(rest[i - 1] == f[i]);
            }
        }
    }
}

/// Copy field/value pairs.
pub fn fields_clone(f: &Vec<(Vec<u8>, Vec<u8>)>) -> (r: Vec<(Vec<u8>, Vec<u8>)>)
    ensures
        r@.len() == f@.len(),
        forall|i: int|
            0 <= i < f@.len() ==> (#[trigger] r@[i]).0@ == f@[i].0@ && r@[i].1@ == f@[i].1@,
{
    let mut r: Vec<(Vec<u8>, Vec<u8>)> = Vec::new();
    let mut i: usize = 0;
    while i < f.len()
        invariant
            i <= f@.len(),
            r@.len() == i,
            forall|j: int|
                0 <= j < i ==> (#[trigger] r@[j]).0@ == f@[j].0@ && r@[j].1@ == f@[j].1@,
        decreases f@.len() - i,
    {
        r.push((bytes_clone(&f[i].0), bytes_clone(&f[i].1)));
        i += 1;
    }
    r
}

/// The flattened field/value bulk strings of one entry.
pub open spec fn fields_flat(fs: Seq<(Seq<u8>, Seq<u8>)>) -> Seq<crate::resp::RespData>
    decreases fs.len(),
{
    if fs.len() == 0 {
        Seq::empty()
    } else {
        seq![
            crate::resp::RespData::BulkString(fs[0].0),
            crate::resp::RespData::BulkString(fs[0].1),
        ] + fields_flat(fs.subrange(1, fs.len() as int))
    }
}

/// The reply shape of one stream entry: `[id, [field, value, …]]`.
pub open spec fn entry_reply(ms: u64, seq: u64, fs: Seq<(Seq<u8>, Seq<u8>)>) -> crate::resp::RespData {
    crate::resp::RespData::Array(
        seq![
            crate::resp::RespData::BulkString(id_bytes(ms, seq)),
            crate::resp::RespData::Array(fields_flat(fs)),
        ],
    )
}

/// The reply shapes of a run of entries.
pub open spec fn entries_reply(es: Seq<StreamEntry>) -> Seq<crate::resp::RespData>
    decreases es.len(),
{
    if es.len() == 0 {
        Seq::empty()
    } else {
        seq![entry_reply(es[0].ms, es[0].seq, fields_view(es[0].fields@))] + entries_reply(
            es.subrange(1, es.len() as int),
        )
    }
}

/// The entry replies, pointwise.
pub proof fn lemma_entries_reply(es: Seq<StreamEntry>)
    ensures
        entries_reply(es).len() == es.len(),
        forall|i: int|
            0 <= i < es.len() ==> entries_reply(es)[i] == entry_reply(
                (#[trigger] es[i]).ms,
                es[i].seq,
                fields_view(es[i].fields@),
            ),
    decreases es.len(),
{
    if es.len() > 0 {
        let rest = es.subrange(1, es.len() as int);
        lemma_entries_reply(rest);
        assert forall|i: int| 0 <= i < es.len() implies entries_reply(es)[i] == entry_reply(
            (#[trigger] es[i]).ms,
            es[i].seq,
            fields_view(es[i].fields@),
        ) by {
            if i > 0 {
                assert(rest[i - 1] == es[i]);
            }
        }
    }
}

/// Build the reply value for one entry.
pub fn build_entry_reply(e: &StreamEntry) -> (r: crate::resp::RespValue)
    ensures
        crate::resp::resp_view(r) == entry_reply(e.ms, e.seq, fields_view(e.fields@)),
{
    let mut flat: Vec<crate::resp::RespValue> = Vec::new();
    let mut i: usize = 0;
    proof {
        lemma_fields_view(e.fields@);
        crate::resp::lemma_resp_seq_view(flat@);
        assert(crate::resp::resp_seq_view(flat@) =~= flat_prefix(fields_view(e.fields@), 0));
    }
    while i < e.fields.len()
        invariant
            i <= e.fields@.len(),
            fields_view(e.fields@).len() == e.fields@.len(),
            forall|j: int|
                0 <= j < e.fields@.len() ==> fields_view(e.fields@)[j] == ((
                #[trigger] e.fields@[j]).0@,
                e.fields@[j].1@,
            ),
            crate::resp::resp_seq_view(flat@) == flat_prefix(fields_view(e.fields@), i as int),
        decreases e.fields@.len() - i,
    {
        let ghost f0 = flat@;
        flat.push(crate::resp::RespValue::BulkString(bytes_clone(&e.fields[i].0)));
        proof {
            crate::resp::lemma_resp_seq_view_push(f0, flat@.last());
        }
        let ghost f1 = flat@;
        flat.push(crate::resp::RespValue::BulkString(bytes_clone(&e.fields[i].1)));
        proof {
            crate::resp::lemma_resp_seq_view_push(f1, flat@.last());
            lemma_flat_prefix_step(fields_view(e.fields@), i as int);
        }
        i += 1;
    }
    proof {
        lemma_flat_prefix_full(fields_view(e.fields@));
    }
    let mut pair: Vec<crate::resp::RespValue> = Vec::new();
    pair.push(crate::resp::RespValue::BulkString(format_id(e.ms, e.seq)));
    pair.push(crate::resp::RespValue::Array(flat));
    proof {
        crate::resp::lemma_resp_seq_view(pair@);
        assert(pair@.len() == 2);
        assert(crate::resp::resp_view(pair@[0]) == crate::resp::RespData::BulkString(
            id_bytes(e.ms, e.seq),
        ));
        assert(crate::resp::resp_view(pair@[1]) == crate::resp::RespData::Array(
            fields_flat(fields_view(e.fields@)),
        ));
        assert(crate::resp::resp_seq_view(pair@) =~= seq![
            crate::resp::RespData::BulkString(id_bytes(e.ms, e.seq)),
            crate::resp::RespData::Array(fields_flat(fields_view(e.fields@))),
        ]);
    }
    crate::resp::RespValue::Array(pair)
}

/// The flattened bulk strings of the first `i` pairs.
pub open spec fn flat_prefix(fs: Seq<(Seq<u8>, Seq<u8>)>, i: int) -> Seq<crate::resp::RespData> {
    fields_flat(fs.subrange(0, if 0 <= i <= fs.len() {
        i
    } else {
        0
    }))
}

/// One more pair flattens to two more bulk strings.
pub proof fn lemma_flat_prefix_step(fs: Seq<(Seq<u8>, Seq<u8>)>, i: int)
    requires
        0 <= i < fs.len(),
    ensures
        flat_prefix(fs, i + 1) == flat_prefix(fs, i) + seq![
            crate::resp::RespData::BulkString(fs[i].0),
            crate::resp::RespData::BulkString(fs[i].1),
        ],
    decreases i,
{
    let a = fs.subrange(0, i);
    let b = fs.subrange(0, i + 1);
    if i == 0 {
        assert(fs.subrange(0, 0) =~= Seq::<(Seq<u8>, Seq<u8>)>::empty());
        assert(fields_flat(Seq::<(Seq<u8>, Seq<u8>)>::empty()) == Seq::<
            crate::resp::RespData,
        >::empty());
        assert(b =~= seq![fs[0]]);
        assert(b.subrange(1, 1) =~= Seq::<(Seq<u8>, Seq<u8>)>::empty());
        assert(fields_flat(b) == seq![
            crate::resp::RespData::BulkString(fs[0].0),
            crate::resp::RespData::BulkString(fs[0].1),
        ] + fields_flat(b.subrange(1, 1)));
        assert(flat_prefix(fs, 1) =~= flat_prefix(fs, 0) + seq![
            crate::resp::RespData::BulkString(fs[0].0),
            crate::resp::RespData::BulkString(fs[0].1),
        ]);
    } else {
        lemma_flat_prefix_step(fs.subrange(1, fs.len() as int), i - 1);
        let rest = fs.subrange(1, fs.len() as int);
        assert(a[0] == fs[0] && b[0] == fs[0]);
        assert(a.subrange(1, a.len() as int) =~= rest.subrange(0, i - 1));
        assert(b.subrange(1, b.len() as int) =~= rest.subrange(0, i));
        assert(fields_flat(a) == seq![
            crate::resp::RespData::BulkString(fs[0].0),
            crate::resp::RespData::BulkString(fs[0].1),
        ] + fields_flat(rest.subrange(0, i - 1)));
        assert(fields_flat(b) == seq![
            crate::resp::RespData::BulkString(fs[0].0),
            crate::resp::RespData::BulkString(fs[0].1),
        ] + fields_flat(rest.subrange(0, i)));
        assert(rest[i - 1] == fs[i]);
        assert(flat_prefix(fs, i + 1) =~= flat_prefix(fs, i) + seq![
            crate::resp::RespData::BulkString(fs[i].0),
            crate::resp::RespData::BulkString(fs[i].1),
        ]);
    }
}

/// The full prefix flattens the whole run.
pub proof fn lemma_flat_prefix_full(fs: Seq<(Seq<u8>, Seq<u8>)>)
    ensures
        flat_prefix(fs, fs.len() as int) == fields_flat(fs),
{
    assert(fs.subrange(0, fs.len() as int) =~= fs);
}

/// Copy one entry.
pub fn entry_clone(e: &StreamEntry) -> (r: StreamEntry)
    ensures
        r.ms == e.ms,
        r.seq == e.seq,
        fields_view(r.fields@) == fields_view(e.fields@),
{
    let f = fields_clone(&e.fields);
    proof {
        lemma_fields_view(e.fields@);
        lemma_fields_view(f@);
        assert forall|i: int| 0 <= i < f@.len() implies fields_view(f@)[i] == fields_view(
            e.fields@,
        )[i] by {
            assert(fields_view(f@)[i] == (f@[i].0@, f@[i].1@));
            assert((#[trigger] f@[i]).0@ == e.fields@[i].0@ && f@[i].1@ == e.fields@[i].1@);
        }
        assert(fields_view(f@) =~= fields_view(e.fields@));
    }
    StreamEntry { ms: e.ms, seq: e.seq, fields: f }
}

/// Copy a stream.
pub fn stream_clone(s: &Stream) -> (r: Stream)
    ensures
        r.entries@.len() == s.entries@.len(),
        forall|i: int|
            0 <= i < s.entries@.len() ==> (#[trigger] r.entries@[i]).ms == s.entries@[i].ms
                && r.entries@[i].seq == s.entries@[i].seq && fields_view(r.entries@[i].fields@)
                == fields_view(s.entries@[i].fields@),
        stream_wf(*s) ==> stream_wf(r),
{
    let mut es: Vec<StreamEntry> = Vec::new();
    let mut i: usize = 0;
    while i < s.entries.len()
        invariant
            i <= s.entries@.len(),
            es@.len() == i,
            forall|j: int|
                0 <= j < i ==> (#[trigger] es@[j]).ms == s.entries@[j].ms && es@[j].seq
                    == s.entries@[j].seq && fields_view(es@[j].fields@) == fields_view(
                    s.entries@[j].fields@,
                ),
        decreases s.entries@.len() - i,
    {
        es.push(entry_clone(&s.entries[i]));
        i += 1;
    }
    let r = Stream { entries: es };
    proof {
        if stream_wf(*s) {
            assert forall|a: int, b: int|
                0 <= a < b < r.entries@.len() implies id_lt(
                (#[trigger] r.entries@[a]).ms,
                r.entries@[a].seq,
                (#[trigger] r.entries@[b]).ms,
                r.entries@[b].seq,
            ) by {
                assert(id_lt(
                    s.entries@[a].ms,
                    s.entries@[a].seq,
                    s.entries@[b].ms,
                    s.entries@[b].seq,
                ));
            }
            assert forall|a: int|
                0 <= a < r.entries@.len() implies !((#[trigger] r.entries@[a]).ms == 0
                && r.entries@[a].seq == 0) by {
                assert(!(s.entries@[a].ms == 0 && s.entries@[a].seq == 0));
            }
        }
    }
    r
}

/// The entries with `lo ≤ id ≤ hi`, in order.
pub open spec fn range_filter(es: Seq<StreamEntry>, lo: (u64, u64), hi: (u64, u64)) -> Seq<
    StreamEntry,
>
    decreases es.len(),
{
    if es.len() == 0 {
        Seq::empty()
    } else {
        let head: Seq<StreamEntry> = if id_le(lo.0, lo.1, es[0].ms, es[0].seq) && id_le(
            es[0].ms,
            es[0].seq,
            hi.0,
            hi.1,
        ) {
            seq![es[0]]
        } else {
            Seq::empty()
        };
        head + range_filter(es.subrange(1, es.len() as int), lo, hi)
    }
}

/// The entries with `id < entry id`, in order.
pub open spec fn after_filter(es: Seq<StreamEntry>, id: (u64, u64)) -> Seq<StreamEntry>
    decreases es.len(),
{
    if es.len() == 0 {
        Seq::empty()
    } else {
        let head: Seq<StreamEntry> = if id_lt(id.0, id.1, es[0].ms, es[0].seq) {
            seq![es[0]]
        } else {
            Seq::empty()
        };
        head + after_filter(es.subrange(1, es.len() as int), id)
    }
}

/// Appending one entry appends it to the filtered run when it is in
/// range.
pub proof fn lemma_range_filter_snoc(
    es: Seq<StreamEntry>,
    e: StreamEntry,
    lo: (u64, u64),
    hi: (u64, u64),
)
    ensures
        range_filter(es.push(e), lo, hi) == range_filter(es, lo, hi) + (if id_le(
            lo.0,
            lo.1,
            e.ms,
            e.seq,
        ) && id_le(e.ms, e.seq, hi.0, hi.1) {
            seq![e]
        } else {
            Seq::<StreamEntry>::empty()
        }),
    decreases es.len(),
{
    let tail: Seq<StreamEntry> = if id_le(lo.0, lo.1, e.ms, e.seq) && id_le(
        e.ms,
        e.seq,
        hi.0,
        hi.1,
    ) {
        seq![e]
    } else {
        Seq::empty()
    };
    let q = es.push(e);
    if es.len() == 0 {
        assert(q[0] == e);
        assert(q.subrange(1, q.len() as int) =~= Seq::<StreamEntry>::empty());
        assert(range_filter(Seq::<StreamEntry>::empty(), lo, hi) == Seq::<StreamEntry>::empty());
        assert(range_filter(es, lo, hi) == Seq::<StreamEntry>::empty());
        assert(range_filter(q, lo, hi) == tail + Seq::<StreamEntry>::empty());
        assert(range_filter(q, lo, hi) =~= range_filter(es, lo, hi) + tail);
    } else {
        let rest = es.subrange(1, es.len() as int);
        lemma_range_filter_snoc(rest, e, lo, hi);
        assert(q[0] == es[0]);
        assert(q.subrange(1, q.len() as int) =~= rest.push(e));
        let h0: Seq<StreamEntry> = if id_le(lo.0, lo.1, es[0].ms, es[0].seq) && id_le(
            es[0].ms,
            es[0].seq,
            hi.0,
            hi.1,
        ) {
            seq![es[0]]
        } else {
            Seq::empty()
        };
        assert(range_filter(q, lo, hi) == h0 + range_filter(rest.push(e), lo, hi));
        assert(range_filter(es, lo, hi) == h0 + range_filter(rest, lo, hi));
        assert(range_filter(rest.push(e), lo, hi) == range_filter(rest, lo, hi) + tail);
        vstd::seq_lib::lemma_concat_associative(h0, range_filter(rest, lo, hi), tail);
        assert(h0.add(range_filter(rest, lo, hi).add(tail)) == h0.add(
            range_filter(rest, lo, hi),
        ).add(tail));
        assert(range_filter(q, lo, hi) == range_filter(es, lo, hi) + tail);
    }
}

/// Appending one entry appends it to the after-run when its id is above
/// the bound.
pub proof fn lemma_after_filter_snoc(es: Seq<StreamEntry>, e: StreamEntry, id: (u64, u64))
    ensures
        after_filter(es.push(e), id) == after_filter(es, id) + (if id_lt(id.0, id.1, e.ms, e.seq) {
            seq![e]
        } else {
            Seq::<StreamEntry>::empty()
        }),
    decreases es.len(),
{
    let tail: Seq<StreamEntry> = if id_lt(id.0, id.1, e.ms, e.seq) {
        seq![e]
    } else {
        Seq::empty()
    };
    let q = es.push(e);
    if es.len() == 0 {
        assert(q[0] == e);
        assert(q.subrange(1, q.len() as int) =~= Seq::<StreamEntry>::empty());
        assert(after_filter(Seq::<StreamEntry>::empty(), id) == Seq::<StreamEntry>::empty());
        assert(after_filter(es, id) == Seq::<StreamEntry>::empty());
        assert(after_filter(q, id) == tail + Seq::<StreamEntry>::empty());
        assert(after_filter(q, id) =~= after_filter(es, id) + tail);
    } else {
        let rest = es.subrange(1, es.len() as int);
        lemma_after_filter_snoc(rest, e, id);
        assert(q[0] == es[0]);
        assert(q.subrange(1, q.len() as int) =~= rest.push(e));
        let h0: Seq<StreamEntry> = if id_lt(id.0, id.1, es[0].ms, es[0].seq) {
            seq![es[0]]
        } else {
            Seq::empty()
        };
        assert(after_filter(q, id) == h0 + after_filter(rest.push(e), id));
        assert(after_filter(es, id) == h0 + after_filter(rest, id));
        assert(after_filter(rest.push(e), id) == after_filter(rest, id) + tail);
        vstd::seq_lib::lemma_concat_associative(h0, after_filter(rest, id), tail);
        assert(h0.add(after_filter(rest, id).add(tail)) == h0.add(after_filter(rest, id)).add(
            tail,
        ));
        assert(after_filter(q, id) == after_filter(es, id) + tail);
    }
}

impl Stream {
    /// The entries with ids in the inclusive window, as copies.
    pub fn get_range(&self, lo: (u64, u64), hi: (u64, u64)) -> (r: Vec<StreamEntry>)
        ensures
            ({
                let f = range_filter(self.entries@, lo, hi);
                r@.len() == f.len() && forall|i: int|
                    0 <= i < f.len() ==> (#[trigger] r@[i]).ms == f[i].ms && r@[i].seq == f[i].seq
                        && fields_view(r@[i].fields@) == fields_view(f[i].fields@)
            }),
    {
        let mut out: Vec<StreamEntry> = Vec::new();
        let mut i: usize = 0;
        let ghost es = self.entries@;
        proof {
            assert(es.subrange(0, 0) =~= Seq::<StreamEntry>::empty());
        }
        while i < self.entries.len()
            invariant
                es == self.entries@,
                i <= es.len(),
                ({
                    let f = range_filter(es.subrange(0, i as int), lo, hi);
                    out@.len() == f.len() && forall|j: int|
                        0 <= j < f.len() ==> (#[trigger] out@[j]).ms == f[j].ms && out@[j].seq
                            == f[j].seq && fields_view(out@[j].fields@) == fields_view(
                            f[j].fields@,
                        )
                }),
            decreases es.len() - i,
        {
            let e = &self.entries[i];
            let in_lo = lo.0 < e.ms || (lo.0 == e.ms && lo.1 <= e.seq);
            let in_hi = e.ms < hi.0 || (e.ms == hi.0 && e.seq <= hi.1);
            if in_lo && in_hi {
                out.push(entry_clone(e));
            }
            proof {
                let pre = es.subrange(0, i as int);
                let post = es.subrange(0, i as int + 1);
                assert(post =~= pre.push(es[i as int]));
                lemma_range_filter_snoc(pre, es[i as int], lo, hi);
            }
            i += 1;
        }
        proof {
            assert(es.subrange(0, es.len() as int) =~= es);
        }
        out
    }

    /// The entries with ids strictly above `id`, as copies.
    pub fn get_entries_after(&self, id: (u64, u64)) -> (r: Vec<StreamEntry>)
        ensures
            ({
                let f = after_filter(self.entries@, id);
                r@.len() == f.len() && forall|i: int|
                    0 <= i < f.len() ==> (#[trigger] r@[i]).ms == f[i].ms && r@[i].seq == f[i].seq
                        && fields_view(r@[i].fields@) == fields_view(f[i].fields@)
            }),
    {
        let mut out: Vec<StreamEntry> = Vec::new();
        let mut i: usize = 0;
        let ghost es = self.entries@;
        proof {
            assert(es.subrange(0, 0) =~= Seq::<StreamEntry>::empty());
        }
        while i < self.entries.len()
            invariant
                es == self.entries@,
                i <= es.len(),
                ({
                    let f = after_filter(es.subrange(0, i as int), id);
                    out@.len() == f.len() && forall|j: int|
                        0 <= j < f.len() ==> (#[trigger] out@[j]).ms == f[j].ms && out@[j].seq
                            == f[j].seq && fields_view(out@[j].fields@) == fields_view(
                            f[j].fields@,
                        )
                }),
            decreases es.len() - i,
        {
            let e = &self.entries[i];
            if id.0 < e.ms || (id.0 == e.ms && id.1 < e.seq) {
                out.push(entry_clone(e));
            }
            proof {
                let pre = es.subrange(0, i as int);
                let post = es.subrange(0, i as int + 1);
                assert(post =~= pre.push(es[i as int]));
                lemma_after_filter_snoc(pre, es[i as int], id);
            }
            i += 1;
        }
        proof {
            assert(es.subrange(0, es.len() as int) =~= es);
        }
        out
    }
}

/// Parse an `XRANGE` bound: `-` is the stream minimum, `+` the maximum,
/// The stream-range bound a `XRANGE` argument denotes: `-` the least
/// id, `+` the greatest, and otherwise an explicit id (a bare
/// millisecond covers the whole millisecond when it names an end).
pub open spec fn spec_range_bound(b: Seq<u8>, is_end: bool) -> Option<(u64, u64)> {
    if b == seq![45u8] {
        Some((0u64, 0u64))
    } else if b == seq![43u8] {
        Some((u64::MAX, u64::MAX))
    } else {
        match spec_parse_xadd_id(b) {
            Some(XaddId::Explicit(m, s)) => if is_end && crate::score::spec_find_byte(b, 45)
                is None {
                Some((m, u64::MAX))
            } else {
                Some((m, s))
            },
            _ => None,
        }
    }
}

/// a bare `ms` covers the whole millisecond (from its first id as a
/// start, to its last as an end).
pub fn parse_range_id(b: &Vec<u8>, is_end: bool) -> (r: Option<(u64, u64)>)
    ensures
        r == spec_range_bound(b@, is_end),
{
    if b.len() == 1 && b[0] == 45 {
        proof {
            assert(b@ =~= seq![45u8]);
        }
        return Some((0, 0));
    }
    if b.len() == 1 && b[0] == 43 {
        proof {
            assert(b@ =~= seq![43u8]);
        }
        return Some((u64::MAX, u64::MAX));
    }
    proof {
        if b@ == seq![45u8] || b@ == seq![43u8] {
            assert(b@.len() == 1);
            assert(false);
        }
    }
    match parse_xadd_id(b) {
        Some(XaddId::Explicit(m, s)) => {
            if is_end && crate::score::find_byte(b, 45).is_none() {
                Some((m, u64::MAX))
            } else {
                Some((m, s))
            }
        },
        _ => None,
    }
}

/// The newest id of the live stream at `k`, reading `0-0` when the key
/// is absent, expired, empty, or of another kind.
pub open spec fn spec_stream_top(
    s: Seq<(Vec<u8>, KeyWithExpiry)>,
    k: Seq<u8>,
    now: u64,
) -> (u64, u64) {
    match live_get(s, k, now) {
        Some(e) => match e.value {
            ValueType::Stream(st) => if st.entries@.len() == 0 {
                (0u64, 0u64)
            } else {
                (st.entries@.last().ms, st.entries@.last().seq)
            },
            _ => (0u64, 0u64),
        },
        None => (0u64, 0u64),
    }
}

impl Db {
    /// `XADD`: append to the stream under the id rules, creating the
    /// stream on first use; reply with the stored id, or the matching
    /// error.  The second result says whether stream waiters should be
    /// notified.
    pub fn handle_xadd(
        &mut self,
        key: &Vec<u8>,
        id: XaddId,
        fields: Vec<(Vec<u8>, Vec<u8>)>,
        wall_ms: u64,
        now: u64,
    ) -> (r: (RespValue, bool))
        requires
            old(self).wf(),
        ensures
            final(self).wf(),
            forall|k2: Seq<u8>|
                k2 != key@ ==> #[trigger] assoc_get(final(self).entries@, k2) == assoc_get(
                    old(self).entries@,
                    k2,
                ),
            ({
                let cur = live_get(old(self).entries@, key@, now);
                let bad = cur matches Some(e) && !(e.value is Stream);
                let s0: Seq<StreamEntry> = match cur {
                    Some(e) => match e.value {
                        ValueType::Stream(s) => s.entries@,
                        _ => Seq::empty(),
                    },
                    None => Seq::empty(),
                };
                if bad {
                    resp_view(r.0) == RespData::SimpleError(crate::replies::wrongtype_msg())
                        && r.1 == false
                } else {
                    let top = if s0.len() == 0 {
                        None
                    } else {
                        Some((s0.last().ms, s0.last().seq))
                    };
                    let g = generated_id(id, wall_ms, top);
                    if g.0 == 0 && g.1 == 0 {
                        &&& resp_view(r.0) == RespData::SimpleError(
                            crate::replies::xadd_zero_msg(),
                        )
                        &&& r.1 == false
                        &&& match cur {
                            Some(_) => assoc_get(final(self).entries@, key@) == assoc_get(
                                old(self).entries@,
                                key@,
                            ),
                            None => assoc_get(final(self).entries@, key@) is None,
                        }
                    } else if top matches Some(t) && !id_lt(t.0, t.1, g.0, g.1) {
                        &&& resp_view(r.0) == RespData::SimpleError(
                            crate::replies::xadd_small_msg(),
                        )
                        &&& r.1 == false
                        &&& match cur {
                            Some(_) => assoc_get(final(self).entries@, key@) == assoc_get(
                                old(self).entries@,
                                key@,
                            ),
                            None => assoc_get(final(self).entries@, key@) is None,
                        }
                    } else {
                        &&& resp_view(r.0) == RespData::BulkString(id_bytes(g.0, g.1))
                        &&& r.1 == true
                        &&& (assoc_get(final(self).entries@, key@) matches Some(e2)
                            && e2.expiry is None && (e2.value matches ValueType::Stream(s1)
                            && s1.entries@.len()
                            == s0.len() + 1 && s1.entries@.last().ms == g.0
                            && s1.entries@.last().seq == g.1 && fields_view(
                            s1.entries@.last().fields@,
                        ) == fields_view(fields@) && (forall|i: int|
                            0 <= i < s0.len() ==> (#[trigger] s1.entries@[i]).ms == s0[i].ms
                                && s1.entries@[i].seq == s0[i].seq && fields_view(
                                s1.entries@[i].fields@,
                            ) == fields_view(s0[i].fields@))))
                    }
                }
            }),
    {
        let idx = self.live_index_of(key, now);
        let mut stream: Stream;
        match idx {
            Some(i) => {
                match &self.entries[i].1.value {
                    ValueType::Stream(s) => {
                        proof {
                            let e = self.entries@[i as int].1;
                            assert(live_get(old(self).entries@, key@, now) == Some(e));
                            assert(e.value is Stream && e.value->Stream_0 == *s);
                            assert(stream_wf(*s));
                        }
                        stream = stream_clone(s);
                    },
                    _ => {
                        return (reply_wrongtype(), false);
                    },
                }
            },
            None => {
                stream = Stream::new();
            },
        }
        let ghost s0 = stream.entries@;
        match stream.add_entry(id, wall_ms, fields) {
            Ok(g) => {
                let reply = RespValue::BulkString(format_id(g.0, g.1));
                proof {
                    assert forall|i: int|
                        0 <= i < s0.len() implies (#[trigger] stream.entries@[i]).ms == s0[i].ms
                        && stream.entries@[i].seq == s0[i].seq && fields_view(
                        stream.entries@[i].fields@,
                    ) == fields_view(s0[i].fields@) by {
                        assert(stream.entries@.subrange(0, s0.len() as int)[i] == s0[i]);
                    }
                }
                self.upsert(
                    crate::bytesutil::bytes_clone(key),
                    KeyWithExpiry { value: ValueType::Stream(stream), expiry: None },
                );
                (reply, true)
            },
            Err(XaddError::Zero) => (
                RespValue::SimpleError(
                    crate::bytesutil::str_bytes(
                        "ERR The ID specified in XADD must be greater than 0-0",
                    ),
                ),
                false,
            ),
            Err(XaddError::NotGreater) => (
                RespValue::SimpleError(
                    crate::bytesutil::str_bytes(
                        "ERR The ID specified in XADD is equal or smaller than the target stream top item",
                    ),
                ),
                false,
            ),
        }
    }

    /// The newest id of the live stream at `key`, or `0-0`.
    pub fn stream_largest(&self, key: &Vec<u8>, now: u64) -> (r: (u64, u64))
        requires
            self.wf(),
        ensures
            r == spec_stream_top(self.entries@, key@, now),
    {
        match self.live_peek(key, now) {
            None => (0, 0),
            Some(i) => {
                match &self.entries[i].1.value {
                    ValueType::Stream(s) => {
                        match s.get_largest_id() {
                            Some(t) => t,
                            None => (0, 0),
                        }
                    },
                    _ => (0, 0),
                }
            },
        }
    }

    /// `XRANGE`: the entries of the stream with ids in the inclusive
    /// window, in reply shape; an absent key reads as the empty array.
    pub fn handle_xrange(&mut self, key: &Vec<u8>, lo: (u64, u64), hi: (u64, u64), now: u64) -> (r:
        RespValue)
        requires
            old(self).wf(),
        ensures
            final(self).wf(),
            forall|k2: Seq<u8>|
                k2 != key@ ==> #[trigger] assoc_get(final(self).entries@, k2) == assoc_get(
                    old(self).entries@,
                    k2,
                ),
            match live_get(old(self).entries@, key@, now) {
                None => resp_view(r) == RespData::Array(Seq::empty()),
                Some(e) => match e.value {
                    ValueType::Stream(s) => resp_view(r) == RespData::Array(
                        entries_reply(range_filter(s.entries@, lo, hi)),
                    ),
                    _ => resp_view(r) == RespData::SimpleError(crate::replies::wrongtype_msg()),
                },
            },
    {
        match self.live_index_of(key, now) {
            None => RespValue::Array(Vec::new()),
            Some(i) => {
                match &self.entries[i].1.value {
                    ValueType::Stream(s) => {
                        let picked = s.get_range(lo, hi);
                        let reply = build_entries_reply(&picked);
                        proof {
                            let f = range_filter(s.entries@, lo, hi);
                            lemma_entries_reply(picked@);
                            lemma_entries_reply(f);
                            assert forall|x: int|
                                0 <= x < f.len() implies entries_reply(picked@)[x]
                                == entries_reply(f)[x] by {
                                assert((#[trigger] picked@[x]).ms == f[x].ms);
                            }
                            assert(entries_reply(picked@) =~= entries_reply(f));
                        }
                        reply
                    },
                    _ => reply_wrongtype(),
                }
            },
        }
    }
}

/// Build the array reply for a run of entries.
pub fn build_entries_reply(es: &Vec<StreamEntry>) -> (r: RespValue)
    ensures
        resp_view(r) == RespData::Array(entries_reply(es@)),
{
    let mut out: Vec<RespValue> = Vec::new();
    let mut i: usize = 0;
    proof {
        lemma_entries_reply(es@);
        crate::resp::lemma_resp_seq_view(out@);
        assert(crate::resp::resp_seq_view(out@) =~= entries_reply(es@.subrange(0, 0)));
        assert(es@.subrange(0, 0) =~= Seq::<StreamEntry>::empty());
    }
    while i < es.len()
        invariant
            i <= es@.len(),
            crate::resp::resp_seq_view(out@) == entries_reply(es@.subrange(0, i as int)),
        decreases es@.len() - i,
    {
        let ghost o0 = out@;
        out.push(build_entry_reply(&es[i]));
        proof {
            crate::resp::lemma_resp_seq_view_push(o0, out@.last());
            let a = es@.subrange(0, i as int);
            let b = es@.subrange(0, i as int + 1);
            assert(b =~= a.push(es@[i as int]));
            lemma_entries_snoc(a, es@[i as int]);
        }
        i += 1;
    }
    proof {
        assert(es@.subrange(0, es@.len() as int) =~= es@);
    }
    RespValue::Array(out)
}

/// Appending one entry appends its reply shape.
pub proof fn lemma_entries_snoc(es: Seq<StreamEntry>, e: StreamEntry)
    ensures
        entries_reply(es.push(e)) == entries_reply(es) + seq![
            entry_reply(e.ms, e.seq, fields_view(e.fields@)),
        ],
    decreases es.len(),
{
    let q = es.push(e);
    let tail = seq![entry_reply(e.ms, e.seq, fields_view(e.fields@))];
    if es.len() == 0 {
        assert(q[0] == e);
        assert(q.subrange(1, q.len() as int) =~= Seq::<StreamEntry>::empty());
        assert(entries_reply(Seq::<StreamEntry>::empty()) == Seq::<RespData>::empty());
        assert(entries_reply(es) == Seq::<RespData>::empty());
        assert(entries_reply(q) == tail + Seq::<RespData>::empty());
        assert(entries_reply(q) =~= entries_reply(es) + tail);
    } else {
        let rest = es.subrange(1, es.len() as int);
        lemma_entries_snoc(rest, e);
        assert(q[0] == es[0]);
        assert(q.subrange(1, q.len() as int) =~= rest.push(e));
        let h0 = seq![entry_reply(es[0].ms, es[0].seq, fields_view(es[0].fields@))];
        assert(entries_reply(q) == h0 + entries_reply(rest.push(e)));
        assert(entries_reply(es) == h0 + entries_reply(rest));
        vstd::seq_lib::lemma_concat_associative(h0, entries_reply(rest), tail);
        assert(entries_reply(q) =~= entries_reply(es) + tail);
    }
}

/// The `XREAD` reply sections: for each stream with entries above its
/// id, `[key, entries]`; streams with nothing new are left out.
pub open spec fn xread_streams(
    s: Seq<(Vec<u8>, KeyWithExpiry)>,
    keys: Seq<Seq<u8>>,
    ids: Seq<(u64, u64)>,
    now: u64,
) -> Seq<RespData>
    decreases keys.len(),
{
    if keys.len() == 0 || ids.len() == 0 {
        Seq::empty()
    } else {
        let head: Seq<RespData> = match live_get(s, keys[0], now) {
            Some(e) => match e.value {
                ValueType::Stream(st) => {
                    let f = after_filter(st.entries@, ids[0]);
                    if f.len() > 0 {
                        seq![
                            RespData::Array(
                                seq![
                                    RespData::BulkString(keys[0]),
                                    RespData::Array(entries_reply(f)),
                                ],
                            ),
                        ]
                    } else {
                        Seq::empty()
                    }
                },
                _ => Seq::empty(),
            },
            None => Seq::empty(),
        };
        head + xread_streams(
            s,
            keys.subrange(1, keys.len() as int),
            ids.subrange(1, ids.len() as int),
            now,
        )
    }
}

impl Db {
    /// The `XREAD` sections for the given streams and ids: every stream
    /// holding entries with ids above its bound contributes
    /// `[key, entries]`.
    pub fn xread_collect(&self, keys: &Vec<Vec<u8>>, ids: &Vec<(u64, u64)>, now: u64) -> (r: Vec<
        RespValue,
    >)
        requires
            self.wf(),
            keys@.len() == ids@.len(),
        ensures
            crate::resp::resp_seq_view(r@) == xread_streams(
                self.entries@,
                crate::bytesutil::views_of(keys@),
                ids@,
                now,
            ),
    {
        let ghost s = self.entries@;
        let ghost kv = crate::bytesutil::views_of(keys@);
        let mut out: Vec<RespValue> = Vec::new();
        let mut i: usize = 0;
        proof {
            crate::bytesutil::lemma_views_of(keys@);
            crate::resp::lemma_resp_seq_view(out@);
            assert(kv.subrange(0, kv.len() as int) =~= kv);
            assert(ids@.subrange(0, ids@.len() as int) =~= ids@);
        }
        while i < keys.len()
            invariant
                self.wf(),
                s == self.entries@,
                kv == crate::bytesutil::views_of(keys@),
                kv.len() == keys@.len(),
                forall|j: int| 0 <= j < keys@.len() ==> kv[j] == (#[trigger] keys@[j])@,
                keys@.len() == ids@.len(),
                i <= keys@.len(),
                xread_streams(s, kv, ids@, now) == crate::resp::resp_seq_view(out@)
                    + xread_streams(
                    s,
                    kv.subrange(i as int, kv.len() as int),
                    ids@.subrange(i as int, ids@.len() as int),
                    now,
                ),
            decreases keys@.len() - i,
        {
            let ghost krem = kv.subrange(i as int, kv.len() as int);
            let ghost irem = ids@.subrange(i as int, ids@.len() as int);
            proof {
                assert(krem[0] == kv[i as int]);
                assert(irem[0] == ids@[i as int]);
                assert(krem.subrange(1, krem.len() as int) =~= kv.subrange(
                    i as int + 1,
                    kv.len() as int,
                ));
                assert(irem.subrange(1, irem.len() as int) =~= ids@.subrange(
                    i as int + 1,
                    ids@.len() as int,
                ));
            }
            let ghost o0 = out@;
            let mut pushed = false;
            match self.live_peek(&keys[i], now) {
                Some(ei) => {
                    match &self.entries[ei].1.value {
                        ValueType::Stream(st) => {
                            let picked = st.get_entries_after(ids[i]);
                            if picked.len() > 0 {
                                let ghost f = after_filter(st.entries@, ids@[i as int]);
                                let body = build_entries_reply(&picked);
                                proof {
                                    lemma_entries_reply(picked@);
                                    lemma_entries_reply(f);
                                    assert forall|x: int|
                                        0 <= x < f.len() implies entries_reply(picked@)[x]
                                        == entries_reply(f)[x] by {
                                        assert((#[trigger] picked@[x]).ms == f[x].ms);
                                    }
                                    assert(entries_reply(picked@) =~= entries_reply(f));
                                }
                                let mut pair: Vec<RespValue> = Vec::new();
                                pair.push(
                                    RespValue::BulkString(crate::bytesutil::bytes_clone(&keys[i])),
                                );
                                pair.push(body);
                                proof {
                                    crate::resp::lemma_resp_seq_view(pair@);
                                    assert(pair@.len() == 2);
                                    assert(resp_view(pair@[0]) == RespData::BulkString(
                                        kv[i as int],
                                    ));
                                    assert(resp_view(pair@[1]) == RespData::Array(
                                        entries_reply(f),
                                    ));
                                    assert(crate::resp::resp_seq_view(pair@) =~= seq![
                                        RespData::BulkString(kv[i as int]),
                                        RespData::Array(entries_reply(f)),
                                    ]);
                                }
                                out.push(RespValue::Array(pair));
                                pushed = true;
                                proof {
                                    crate::resp::lemma_resp_seq_view_push(o0, out@.last());
                                }
                            }
                        },
                        _ => {},
                    }
                },
                None => {},
            }
            proof {
                if !pushed {
                    assert(out@ == o0);
                }
                vstd::seq_lib::lemma_concat_associative(
                    crate::resp::resp_seq_view(o0),
                    crate::resp::resp_seq_view(out@).subrange(
                        o0.len() as int,
                        out@.len() as int,
                    ),
                    xread_streams(
                        s,
                        kv.subrange(i as int + 1, kv.len() as int),
                        ids@.subrange(i as int + 1, ids@.len() as int),
                        now,
                    ),
                );
                assert(xread_streams(s, kv, ids@, now) == crate::resp::resp_seq_view(out@)
                    + xread_streams(
                    s,
                    kv.subrange(i as int + 1, kv.len() as int),
                    ids@.subrange(i as int + 1, ids@.len() as int),
                    now,
                ));
            }
            i += 1;
        }
        proof {
            assert(kv.subrange(kv.len() as int, kv.len() as int) =~= Seq::<Seq<u8>>::empty());
            assert(ids@.subrange(ids@.len() as int, ids@.len() as int) =~= Seq::<
                (u64, u64),
            >::empty());
        }
        out
    }
}

} // verus!
