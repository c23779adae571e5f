//! The RESP wire codec: the six frame kinds, their encoding, and a strict
//! incremental parser that reports the exact byte count a frame consumed.
//! That byte count is the unit of the replication offset, so the parser's
//! contract pins it exactly: a parse either consumes one whole well-formed
//! frame, asks for more data, or rejects the buffer.

use vstd::prelude::*;

use crate::bytesutil::all_digits;
use crate::bytesutil::canonical_i64_digits;
use crate::bytesutil::canonical_u64_digits;
use crate::bytesutil::dec_val;
use crate::bytesutil::i64_val;
use crate::bytesutil::i64_to_dec;
use crate::bytesutil::parse_i64;
use crate::bytesutil::parse_i64_canonical;
use crate::bytesutil::parse_u64;
use crate::bytesutil::spec_i64_digits;
use crate::bytesutil::spec_u64_digits;
use crate::bytesutil::u64_to_dec;
use vstd::slice::slice_subrange;
use vstd::slice::slice_to_vec;

verus! {

broadcast use vstd::std_specs::vec::group_vec_axioms;

/// One parsed RESP frame.  Bodies are raw bytes: the protocol is binary
/// safe.
pub enum RespValue {
    SimpleString(Vec<u8>),
    SimpleError(Vec<u8>),
    Integer(i64),
    BulkString(Vec<u8>),
    NullBulkString,
    Array(Vec<RespValue>),
    NullArray,
}

/// Mathematical model of a RESP frame: the same tree over `Seq` and `int`.
pub enum RespData {
    SimpleString(Seq<u8>),
    SimpleError(Seq<u8>),
    Integer(int),
    BulkString(Seq<u8>),
    NullBulkString,
    Array(Seq<RespData>),
    NullArray,
}

/// The model of a frame value.
pub open spec fn resp_view(v: RespValue) -> RespData
    decreases v,
{
    match v {
        RespValue::SimpleString(s) => RespData::SimpleString(s@),
        RespValue::SimpleError(s) => RespData::SimpleError(s@),
        RespValue::Integer(n) => RespData::Integer(n as int),
        RespValue::BulkString(s) => RespData::BulkString(s@),
        RespValue::NullBulkString => RespData::NullBulkString,
        RespValue::Array(items) => RespData::Array(resp_seq_view(items@)),
        RespValue::NullArray => RespData::NullArray,
    }
}

/// The models of a sequence of frame values.
pub open spec fn resp_seq_view(items: Seq<RespValue>) -> Seq<RespData>
    decreases items,
{
    if items.len() == 0 {
        Seq::empty()
    } else {
        seq![resp_view(items[0])] + resp_seq_view(items.subrange(1, items.len() as int))
    }
}

/// The model of a sequence is the sequence of the models.
pub proof fn lemma_resp_seq_view(items: Seq<RespValue>)
    ensures
        resp_seq_view(items).len() == items.len(),
        forall|i: int| 0 <= i < items.len() ==> resp_seq_view(items)[i] == resp_view(
            #[trigger] items[i],
        ),
    decreases items.len(),
{
    if items.len() > 0 {
        let rest = items.subrange(1, items.len() as int);
        lemma_resp_seq_view(rest);
        assert forall|i: int| 0 <= i < items.len() implies resp_seq_view(items)[i] == resp_view(
            #[trigger] items[i],
        ) by {
            if i > 0 {
                assert(rest[i - 1] == items[i]);
                assert(resp_seq_view(rest)[i - 1] == resp_view(rest[i - 1]));
                assert(resp_seq_view(items)[i] == resp_seq_view(rest)[i - 1]);
            }
        }
    }
}

/// The two-byte line terminator.
pub open spec fn crlf() -> Seq<u8> {
    seq![13u8, 10u8]
}

/// Encoding of one frame, per the wire grammar: `+S\r\n`, `-E\r\n`,
/// `:N\r\n`, `$L\r\n<L bytes>\r\n`, `$-1\r\n`, `*N\r\n<N frames>`,
/// `*-1\r\n`.
pub open spec fn spec_encode(v: RespData) -> Seq<u8>
    decreases v,
{
    match v {
        RespData::SimpleString(s) => seq![43u8] + s + crlf(),
        RespData::SimpleError(s) => seq![45u8] + s + crlf(),
        RespData::Integer(n) => seq![58u8] + spec_i64_digits(n) + crlf(),
        RespData::BulkString(s) => seq![36u8] + spec_u64_digits(s.len()) + crlf() + s + crlf(),
        RespData::NullBulkString => seq![36u8, 45u8, 49u8, 13u8, 10u8],
        RespData::Array(items) => seq![42u8] + spec_u64_digits(items.len()) + crlf()
            + spec_encode_seq(items),
        RespData::NullArray => seq![42u8, 45u8, 49u8, 13u8, 10u8],
    }
}

/// Concatenated encodings of a sequence of frames.
pub open spec fn spec_encode_seq(items: Seq<RespData>) -> Seq<u8>
    decreases items,
{
    if items.len() == 0 {
        Seq::empty()
    } else {
        spec_encode(items[0]) + spec_encode_seq(items.subrange(1, items.len() as int))
    }
}

/// Appending one frame appends its encoding.
pub proof fn lemma_encode_seq_push(items: Seq<RespData>, v: RespData)
    ensures
        spec_encode_seq(items.push(v)) == spec_encode_seq(items) + spec_encode(v),
    decreases items.len(),
{
    if items.len() == 0 {
        let p = items.push(v);
        assert(p[0] == v);
        assert(p.subrange(1, p.len() as int) =~= Seq::<RespData>::empty());
        assert(spec_encode_seq(p) == spec_encode(v) + spec_encode_seq(Seq::<RespData>::empty()));
        assert(spec_encode_seq(p) =~= spec_encode_seq(items) + spec_encode(v));
    } else {
        let rest = items.subrange(1, items.len() as int);
        lemma_encode_seq_push(rest, v);
        assert(items.push(v)[0] == items[0]);
        assert(items.push(v).subrange(1, items.push(v).len() as int) =~= rest.push(v));
        assert(spec_encode_seq(items.push(v)) =~= spec_encode_seq(items) + spec_encode(v));
    }
}

/// Appending a value appends its model.
pub proof fn lemma_resp_seq_view_push(items: Seq<RespValue>, v: RespValue)
    ensures
        resp_seq_view(items.push(v)) == resp_seq_view(items).push(resp_view(v)),
{
    lemma_resp_seq_view(items);
    lemma_resp_seq_view(items.push(v));
    assert forall|k: int| 0 <= k < items.len() + 1 implies resp_seq_view(items.push(v))[k]
        == resp_seq_view(items).push(resp_view(v))[k] by {
        assert(items.push(v)[k] == if k < items.len() {
            items[k]
        } else {
            v
        });
    }
    assert(resp_seq_view(items.push(v)) =~= resp_seq_view(items).push(resp_view(v)));
}

/// Encode one frame.
pub fn encode(v: &RespValue) -> (r: Vec<u8>)
    ensures
        r@ == spec_encode(resp_view(*v)),
    decreases *v,
{
    match v {
        RespValue::SimpleString(s) => {
            let mut out: Vec<u8> = Vec::new();
            out.push(43);
            let mut body = s.clone();
            out.append(&mut body);
            out.push(13);
            out.push(10);
            proof {
                assert(out@ =~= spec_encode(resp_view(*v)));
            }
            out
        },
        RespValue::SimpleError(s) => {
            let mut out: Vec<u8> = Vec::new();
            out.push(45);
            let mut body = s.clone();
            out.append(&mut body);
            out.push(13);
            out.push(10);
            proof {
                assert(out@ =~= spec_encode(resp_view(*v)));
            }
            out
        },
        RespValue::Integer(n) => {
            let mut out: Vec<u8> = Vec::new();
            out.push(58);
            let mut digits = i64_to_dec(*n);
            out.append(&mut digits);
            out.push(13);
            out.push(10);
            proof {
                assert(out@ =~= spec_encode(resp_view(*v)));
            }
            out
        },
        RespValue::BulkString(s) => {
            let mut out: Vec<u8> = Vec::new();
            out.push(36);
            let mut digits = u64_to_dec(s.len() as u64);
            out.append(&mut digits);
            out.push(13);
            out.push(10);
            let mut body = s.clone();
            out.append(&mut body);
            out.push(13);
            out.push(10);
            proof {
                assert(out@ =~= spec_encode(resp_view(*v)));
            }
            out
        },
        RespValue::NullBulkString => {
            let mut out: Vec<u8> = Vec::new();
            out.push(36);
            out.push(45);
            out.push(49);
            out.push(13);
            out.push(10);
            proof {
                assert(out@ =~= spec_encode(resp_view(*v)));
            }
            out
        },
        RespValue::NullArray => {
            let mut out: Vec<u8> = Vec::new();
            out.push(42);
            out.push(45);
            out.push(49);
            out.push(13);
            out.push(10);
            proof {
                assert(out@ =~= spec_encode(resp_view(*v)));
            }
            out
        },
        RespValue::Array(items) => {
            let mut out: Vec<u8> = Vec::new();
            out.push(42);
            let mut digits = u64_to_dec(items.len() as u64);
            out.append(&mut digits);
            out.push(13);
            out.push(10);
            let ghost header = out@;
            proof {
                assert(resp_seq_view(items@.subrange(0, 0)) =~= Seq::<RespData>::empty());
                assert(out@ =~= header + spec_encode_seq(resp_seq_view(items@.subrange(0, 0))));
            }
            let mut i: usize = 0;
            while i < items.len()
                invariant
                    *v == RespValue::Array(*items),
                    i <= items.len(),
                    header == seq![42u8] + spec_u64_digits(items@.len()) + crlf(),
                    out@ == header + spec_encode_seq(resp_seq_view(items@.subrange(0, i as int))),
                decreases items.len() - i,
            {
                proof {
                    assert(items@[i as int] == items[i as int]);
                    assert(*v == RespValue::Array(*items));
                    assert(decreases_to!(*v => v->Array_0));
                    assert(decreases_to!(*items => items@));
                    assert(decreases_to!(items@ => items@[i as int]));
                }
                let mut e = encode(&items[i]);
                out.append(&mut e);
                proof {
                    let a = items@.subrange(0, i as int);
                    let b = items@.subrange(0, i as int + 1);
                    let pre = resp_seq_view(a);
                    let post = resp_seq_view(b);
                    lemma_resp_seq_view(a);
                    lemma_resp_seq_view(b);
                    assert(b =~= a.push(items@[i as int]));
                    assert forall|k: int| 0 <= k < post.len() implies post[k] == pre.push(
                        resp_view(items@[i as int]),
                    )[k] by {
                        assert(b[k] == items@[k]);
                        if k < i as int {
                            assert(a[k] == items@[k]);
                        }
                    }
                    assert(post =~= pre.push(resp_view(items@[i as int])));
                    lemma_encode_seq_push(pre, resp_view(items@[i as int]));
                }
                i += 1;
            }
            proof {
                assert(items@.subrange(0, items@.len() as int) =~= items@);
                lemma_resp_seq_view(items@);
                assert(out@ =~= spec_encode(resp_view(*v)));
            }
            out
        },
    }
}

/// Copy a frame value.
pub fn value_clone(v: &RespValue) -> (r: RespValue)
    ensures
        resp_view(r) == resp_view(*v),
    decreases *v,
{
    match v {
        RespValue::SimpleString(s) => RespValue::SimpleString(crate::bytesutil::bytes_clone(s)),
        RespValue::SimpleError(s) => RespValue::SimpleError(crate::bytesutil::bytes_clone(s)),
        RespValue::Integer(n) => RespValue::Integer(*n),
        RespValue::BulkString(s) => RespValue::BulkString(crate::bytesutil::bytes_clone(s)),
        RespValue::NullBulkString => RespValue::NullBulkString,
        RespValue::NullArray => RespValue::NullArray,
        RespValue::Array(items) => {
            let mut out: Vec<RespValue> = Vec::new();
            let mut i: usize = 0;
            proof {
                lemma_resp_seq_view(items@);
            }
            while i < items.len()
                invariant
                    *v == RespValue::Array(*items),
                    i <= items@.len(),
                    resp_seq_view(items@).len() == items@.len(),
                    forall|j: int|
                        0 <= j < items@.len() ==> resp_seq_view(items@)[j] == resp_view(
                            #[trigger] items@[j],
                        ),
                    resp_seq_view(out@).len() == i,
                    forall|j: int|
                        0 <= j < i ==> resp_seq_view(out@)[j] == resp_seq_view(items@)[j],
                decreases items@.len() - i,
            {
                proof {
                    assert(items@[i as int] == items[i as int]);
                    assert(decreases_to!(*v => v->Array_0));
                    assert(decreases_to!(*items => items@));
                    assert(decreases_to!(items@ => items@[i as int]));
                }
                let ghost o0 = out@;
                out.push(value_clone(&items[i]));
                proof {
                    lemma_resp_seq_view_push(o0, out@.last());
                }
                i += 1;
            }
            proof {
                lemma_resp_seq_view(out@);
                assert(resp_seq_view(out@) =~= resp_seq_view(items@));
            }
            RespValue::Array(out)
        },
    }
}

/// Encode the frame `*<n>` followed by the given items, without taking
/// ownership of them.
pub fn encode_array_frame(items: &Vec<RespValue>) -> (r: Vec<u8>)
    ensures
        r@ == spec_encode(RespData::Array(resp_seq_view(items@))),
{
    let mut out: Vec<u8> = Vec::new();
    out.push(42);
    let mut digits = u64_to_dec(items.len() as u64);
    out.append(&mut digits);
    out.push(13);
    out.push(10);
    let ghost header = out@;
    proof {
        lemma_resp_seq_view(items@);
        assert(resp_seq_view(items@.subrange(0, 0)) =~= Seq::<RespData>::empty());
        assert(out@ =~= header + spec_encode_seq(resp_seq_view(items@.subrange(0, 0))));
    }
    let mut i: usize = 0;
    while i < items.len()
        invariant
            i <= items@.len(),
            resp_seq_view(items@).len() == items@.len(),
            header == seq![42u8] + spec_u64_digits(items@.len()) + crlf(),
            out@ == header + spec_encode_seq(resp_seq_view(items@.subrange(0, i as int))),
        decreases items@.len() - i,
    {
        let mut e = encode(&items[i]);
        out.append(&mut e);
        proof {
            assert(items@[i as int] == items[i as int]);
            let a = items@.subrange(0, i as int);
            let b = items@.subrange(0, i as int + 1);
            assert(b =~= a.push(items@[i as int]));
            lemma_resp_seq_view_push(a, items@[i as int]);
            lemma_encode_seq_push(resp_seq_view(a), resp_view(items@[i as int]));
        }
        i += 1;
    }
    proof {
        assert(items@.subrange(0, items@.len() as int) =~= items@);
    }
    out
}

/// Outcome of parsing one frame from the front of a byte sequence.
pub enum ParseOut {
    /// A whole frame, and the exact number of bytes it occupies.
    Val(RespData, nat),
    /// The buffer holds only a prefix of a frame.
    More,
    /// The buffer cannot be a frame.
    Bad,
}

/// Outcome of parsing a run of consecutive frames.
pub enum ElemsOut {
    Vals(Seq<RespData>, nat),
    More,
    Bad,
}

/// Position of the first CRLF pair, if any.
pub open spec fn spec_find_crlf(s: Seq<u8>) -> Option<nat>
    decreases s.len(),
{
    if s.len() < 2 {
        None
    } else if s[0] == 13 && s[1] == 10 {
        Some(0)
    } else {
        match spec_find_crlf(s.subrange(1, s.len() as int)) {
            None => None,
            Some(i) => Some((i + 1) as nat),
        }
    }
}

/// What [`spec_find_crlf`] finds: the first position carrying CRLF.
pub proof fn lemma_find_crlf_props(s: Seq<u8>)
    ensures
        match spec_find_crlf(s) {
            Some(i) => i + 1 < s.len() && s[i as int] == 13 && s[i as int + 1] == 10
                && forall|j: int| 0 <= j < i ==> !(#[trigger] s[j] == 13 && s[j + 1] == 10),
            None => forall|j: int| 0 <= j && j + 1 < s.len() ==> !(#[trigger] s[j] == 13 && s[j + 1] == 10),
        },
    decreases s.len(),
{
    if s.len() < 2 {
    } else if s[0] == 13 && s[1] == 10 {
    } else {
        let rest = s.subrange(1, s.len() as int);
        lemma_find_crlf_props(rest);
        match spec_find_crlf(rest) {
            Some(i) => {
                assert forall|j: int| 0 <= j < i + 1 implies !(#[trigger] s[j] == 13 && s[j + 1] == 10) by {
                    if j > 0 {
                        assert(rest[j - 1] == s[j] && rest[j] == s[j + 1]);
                    }
                }
            },
            None => {
                assert forall|j: int| 0 <= j && j + 1 < s.len() implies !(#[trigger] s[j] == 13 && s[j + 1]
                    == 10) by {
                    if j > 0 {
                        assert(rest[j - 1] == s[j] && rest[j] == s[j + 1]);
                    }
                }
            },
        }
    }
}

/// The first CRLF position is determined by its characterization.
pub proof fn lemma_find_crlf_unique(s: Seq<u8>, i: nat)
    requires
        i + 1 < s.len(),
        s[i as int] == 13,
        s[i as int + 1] == 10,
        forall|j: int| 0 <= j < i ==> !(#[trigger] s[j] == 13 && s[j + 1] == 10),
    ensures
        spec_find_crlf(s) == Some(i),
    decreases s.len(),
{
    if i == 0 {
    } else {
        let rest = s.subrange(1, s.len() as int);
        assert forall|j: int| 0 <= j < i - 1 implies !(#[trigger] rest[j] == 13 && rest[j + 1] == 10) by {
            assert(rest[j] == s[j + 1] && rest[j + 1] == s[j + 2]);
        }
        assert(rest[i - 1] == 13 && rest[i as int] == 10);
        lemma_find_crlf_unique(rest, (i - 1) as nat);
    }
}

/// Find the first CRLF pair in a buffer.
pub fn find_crlf(buf: &[u8]) -> (r: Option<usize>)
    ensures
        r is Some <==> spec_find_crlf(buf@) is Some,
        r is Some ==> r->Some_0 as nat == spec_find_crlf(buf@)->Some_0 && r->Some_0 + 1 < buf@.len(),
{
    let mut i: usize = 0;
    loop
        invariant
            i <= buf@.len(),
            forall|j: int| 0 <= j < i ==> !(#[trigger] buf@[j] == 13 && buf@[j + 1] == 10),
        decreases buf@.len() - i,
    {
        if buf.len() - i < 2 {
            proof {
                lemma_find_crlf_props(buf@);
                if spec_find_crlf(buf@) is Some {
                    assert(false);
                }
            }
            return None;
        }
        if buf[i] == 13 && buf[i + 1] == 10 {
            proof {
                lemma_find_crlf_unique(buf@, i as nat);
            }
            return Some(i);
        }
        i += 1;
    }
}

/// The strict parse of one frame from the front of the byte sequence.
///
/// The grammar is the exact image of [`spec_encode`]: digit runs must be
/// canonical (no leading zeros, no bare `-0`), so a successful parse
/// consumes precisely the encoding of the value it returns.
pub open spec fn spec_parse(s: Seq<u8>) -> ParseOut
    decreases s.len(), 0nat,
{
    if s.len() == 0 {
        ParseOut::More
    } else if s[0] == 43 || s[0] == 45 {
        match spec_find_crlf(s.subrange(1, s.len() as int)) {
            None => ParseOut::More,
            Some(i) => {
                let body = s.subrange(1, 1 + i as int);
                if s[0] == 43 {
                    ParseOut::Val(RespData::SimpleString(body), (i + 3) as nat)
                } else {
                    ParseOut::Val(RespData::SimpleError(body), (i + 3) as nat)
                }
            },
        }
    } else if s[0] == 58 {
        match spec_find_crlf(s.subrange(1, s.len() as int)) {
            None => ParseOut::More,
            Some(i) => {
                let d = s.subrange(1, 1 + i as int);
                if canonical_i64_digits(d) {
                    ParseOut::Val(RespData::Integer(i64_val(d)), (i + 3) as nat)
                } else {
                    ParseOut::Bad
                }
            },
        }
    } else if s[0] == 36 {
        match spec_find_crlf(s.subrange(1, s.len() as int)) {
            None => ParseOut::More,
            Some(i) => {
                let d = s.subrange(1, 1 + i as int);
                if d == seq![45u8, 49u8] {
                    ParseOut::Val(RespData::NullBulkString, (i + 3) as nat)
                } else if canonical_u64_digits(d) {
                    let l = dec_val(d);
                    if s.len() < i + 3 + l + 2 {
                        ParseOut::More
                    } else if s[i as int + 3 + l as int] == 13 && s[i as int + 3 + l as int + 1] == 10 {
                        ParseOut::Val(
                            RespData::BulkString(s.subrange(i as int + 3, i as int + 3 + l as int)),
                            (i + 3 + l + 2) as nat,
                        )
                    } else {
                        ParseOut::Bad
                    }
                } else {
                    ParseOut::Bad
                }
            },
        }
    } else if s[0] == 42 {
        match spec_find_crlf(s.subrange(1, s.len() as int)) {
            None => ParseOut::More,
            Some(i) => {
                let d = s.subrange(1, 1 + i as int);
                if d == seq![45u8, 49u8] {
                    ParseOut::Val(RespData::NullArray, (i + 3) as nat)
                } else if canonical_u64_digits(d) && i + 3 <= s.len() {
                    match spec_parse_elems(s.subrange(i as int + 3, s.len() as int), dec_val(d)) {
                        ElemsOut::Vals(vs, m) => ParseOut::Val(
                            RespData::Array(vs),
                            (i + 3 + m) as nat,
                        ),
                        ElemsOut::More => ParseOut::More,
                        ElemsOut::Bad => ParseOut::Bad,
                    }
                } else {
                    ParseOut::Bad
                }
            },
        }
    } else {
        ParseOut::Bad
    }
}

/// Parse of `count` consecutive frames from the front of the sequence.
pub open spec fn spec_parse_elems(s: Seq<u8>, count: nat) -> ElemsOut
    decreases s.len(), count,
{
    if count == 0 {
        ElemsOut::Vals(Seq::empty(), 0)
    } else {
        match spec_parse(s) {
            ParseOut::Val(v, n) => {
                if n <= s.len() {
                    match spec_parse_elems(s.subrange(n as int, s.len() as int), (count - 1) as nat) {
                        ElemsOut::Vals(vs, m) => ElemsOut::Vals(seq![v] + vs, (n + m) as nat),
                        ElemsOut::More => ElemsOut::More,
                        ElemsOut::Bad => ElemsOut::Bad,
                    }
                } else {
                    ElemsOut::Bad
                }
            },
            ParseOut::More => ElemsOut::More,
            ParseOut::Bad => ElemsOut::Bad,
        }
    }
}

/// Why a buffer failed to parse.
#[derive(Debug)]
pub enum ParseError {
    /// The buffer ends before the frame does: read more bytes.
    Incomplete,
    /// The buffer does not hold a RESP frame.
    Malformed,
}

/// The exec result mirrors the spec parse outcome exactly.
pub open spec fn parse_result_matches(
    r: Result<(RespValue, usize), ParseError>,
    out: ParseOut,
) -> bool {
    match r {
        Ok(p) => out == ParseOut::Val(resp_view(p.0), p.1 as nat),
        Err(ParseError::Incomplete) => out == ParseOut::More,
        Err(ParseError::Malformed) => out == ParseOut::Bad,
    }
}

/// Copy `buf[a..b]` into a fresh vector.
fn copy_range(buf: &[u8], a: usize, b: usize) -> (r: Vec<u8>)
    requires
        a <= b <= buf@.len(),
    ensures
        r@ == buf@.subrange(a as int, b as int),
{
    slice_to_vec(slice_subrange(buf, a, b))
}

/// Parse a simple string: `+` up to the first CRLF.
pub fn parse_simple(buf: &[u8]) -> (r: Result<(RespValue, usize), ParseError>)
    requires
        buf@.len() > 0,
        buf@[0] == 43,
    ensures
        parse_result_matches(r, spec_parse(buf@)),
        r matches Ok(p) ==> 3 <= p.1 <= buf@.len(),
{
    let sub = slice_subrange(buf, 1, buf.len());
    match find_crlf(sub) {
        None => Err(ParseError::Incomplete),
        Some(i) => {
            let body = copy_range(buf, 1, 1 + i);
            proof {
                assert(body@ =~= buf@.subrange(1, 1 + i as int));
            }
            Ok((RespValue::SimpleString(body), i + 3))
        },
    }
}

/// Parse a simple error: `-` up to the first CRLF.
fn parse_error_line(buf: &[u8]) -> (r: Result<(RespValue, usize), ParseError>)
    requires
        buf@.len() > 0,
        buf@[0] == 45,
    ensures
        parse_result_matches(r, spec_parse(buf@)),
        r matches Ok(p) ==> 3 <= p.1 <= buf@.len(),
{
    let sub = slice_subrange(buf, 1, buf.len());
    match find_crlf(sub) {
        None => Err(ParseError::Incomplete),
        Some(i) => {
            let body = copy_range(buf, 1, 1 + i);
            proof {
                assert(body@ =~= buf@.subrange(1, 1 + i as int));
            }
            Ok((RespValue::SimpleError(body), i + 3))
        },
    }
}

/// Parse an integer frame: `:` then a canonical signed decimal.
pub fn parse_int(buf: &[u8]) -> (r: Result<(RespValue, usize), ParseError>)
    requires
        buf@.len() > 0,
        buf@[0] == 58,
    ensures
        parse_result_matches(r, spec_parse(buf@)),
        r matches Ok(p) ==> 3 <= p.1 <= buf@.len(),
{
    let sub = slice_subrange(buf, 1, buf.len());
    match find_crlf(sub) {
        None => Err(ParseError::Incomplete),
        Some(i) => {
            let d = copy_range(buf, 1, 1 + i);
            proof {
                assert(d@ =~= buf@.subrange(1, 1 + i as int));
            }
            match parse_i64_canonical(&d) {
                Some(n) => Ok((RespValue::Integer(n), i + 3)),
                None => Err(ParseError::Malformed),
            }
        },
    }
}

/// Parse a bulk string: `$-1` for the null bulk, else a canonical length,
/// that many raw bytes, and a closing CRLF.
pub fn parse_bulk(buf: &[u8]) -> (r: Result<(RespValue, usize), ParseError>)
    requires
        buf@.len() > 0,
        buf@[0] == 36,
    ensures
        parse_result_matches(r, spec_parse(buf@)),
        r matches Ok(p) ==> 3 <= p.1 <= buf@.len(),
{
    let sub = slice_subrange(buf, 1, buf.len());
    match find_crlf(sub) {
        None => Err(ParseError::Incomplete),
        Some(i) => {
            let d = copy_range(buf, 1, 1 + i);
            proof {
                assert(d@ =~= buf@.subrange(1, 1 + i as int));
            }
            if d.len() == 2 && d[0] == 45 && d[1] == 49 {
                proof {
                    assert(d@ =~= seq![45u8, 49u8]);
                }
                Ok((RespValue::NullBulkString, i + 3))
            } else {
                proof {
                    if d@ == seq![45u8, 49u8] {
                        assert(d@.len() == 2 && d@[0] == 45 && d@[1] == 49);
                        assert(false);
                    }
                }
                if d.len() > 1 && d[0] == 48 {
                    return Err(ParseError::Malformed);
                }
                match parse_u64(&d) {
                    None => Err(ParseError::Malformed),
                    Some(l) => {
                        if (buf.len() as u128) < i as u128 + 5 + l as u128 {
                            Err(ParseError::Incomplete)
                        } else {
                            let bs = i + 3;
                            let be = bs + l as usize;
                            if buf[be] == 13 && buf[be + 1] == 10 {
                                let body = copy_range(buf, bs, be);
                                Ok((RespValue::BulkString(body), be + 2))
                            } else {
                                Err(ParseError::Malformed)
                            }
                        }
                    },
                }
            }
        },
    }
}

/// Compose a parsed prefix with the outcome for the remaining frames.
pub open spec fn elems_prepend(vs: Seq<RespData>, n: nat, e: ElemsOut) -> ElemsOut {
    match e {
        ElemsOut::Vals(ws, m) => ElemsOut::Vals(vs + ws, (n + m) as nat),
        ElemsOut::More => ElemsOut::More,
        ElemsOut::Bad => ElemsOut::Bad,
    }
}

/// Parse an array frame: `*-1` for the null array, else a canonical count
/// followed by that many frames.
pub fn parse_array(buf: &[u8]) -> (r: Result<(RespValue, usize), ParseError>)
    requires
        buf@.len() > 0,
        buf@[0] == 42,
    ensures
        parse_result_matches(r, spec_parse(buf@)),
        r matches Ok(p) ==> 3 <= p.1 <= buf@.len(),
    decreases buf@.len(), 0nat,
{
    let sub = slice_subrange(buf, 1, buf.len());
    match find_crlf(sub) {
        None => Err(ParseError::Incomplete),
        Some(i) => {
            let d = copy_range(buf, 1, 1 + i);
            proof {
                assert(d@ =~= buf@.subrange(1, 1 + i as int));
            }
            if d.len() == 2 && d[0] == 45 && d[1] == 49 {
                proof {
                    assert(d@ =~= seq![45u8, 49u8]);
                }
                Ok((RespValue::NullArray, i + 3))
            } else {
                proof {
                    if d@ == seq![45u8, 49u8] {
                        assert(d@.len() == 2 && d@[0] == 45 && d@[1] == 49);
                        assert(false);
                    }
                }
                if d.len() > 1 && d[0] == 48 {
                    return Err(ParseError::Malformed);
                }
                match parse_u64(&d) {
                    None => Err(ParseError::Malformed),
                    Some(count) => {
                        let ghost s = buf@;
                        let ghost total = count as nat;
                        let ghost start = i + 3;
                        let mut cur: usize = i + 3;
                        let mut acc: Vec<RespValue> = Vec::new();
                        proof {
                            assert(resp_seq_view(acc@) =~= Seq::<RespData>::empty());
                            assert(spec_parse_elems(s.subrange(start as int, s.len() as int), total)
                                == elems_prepend(
                                resp_seq_view(acc@),
                                0,
                                spec_parse_elems(s.subrange(cur as int, s.len() as int), total),
                            ));
                        }
                        while (acc.len() as u64) < count
                            invariant
                                s == buf@,
                                s.len() > 0,
                                s[0] == 42,
                                start == i + 3,
                                3 <= start <= cur <= s.len(),
                                acc.len() <= count,
                                total == count as nat,
                                spec_find_crlf(s.subrange(1, s.len() as int)) == Some(i as nat),
                                d@ == s.subrange(1, 1 + i as int),
                                canonical_u64_digits(d@),
                                dec_val(d@) == count as nat,
                                d@ != seq![45u8, 49u8],
                                spec_parse_elems(s.subrange(start as int, s.len() as int), total)
                                    == elems_prepend(
                                    resp_seq_view(acc@),
                                    (cur - start) as nat,
                                    spec_parse_elems(
                                        s.subrange(cur as int, s.len() as int),
                                        (total - acc.len()) as nat,
                                    ),
                                ),
                            decreases count - acc.len(),
                        {
                            let ghost rem = (total - acc.len()) as nat;
                            let rest = slice_subrange(buf, cur, buf.len());
                            proof {
                                assert(rest@ == s.subrange(cur as int, s.len() as int));
                            }
                            match parse_msg(rest) {
                                Ok(pair) => {
                                    let (v, n) = pair;
                                    proof {
                                        let tail = s.subrange(cur as int, s.len() as int);
                                        assert(spec_parse(tail) == ParseOut::Val(
                                            resp_view(v),
                                            n as nat,
                                        ));
                                        assert(tail.subrange(n as int, tail.len() as int) =~= s
                                            .subrange(cur as int + n as int, s.len() as int));
                                        assert(spec_parse_elems(tail, rem) == elems_prepend(
                                            seq![resp_view(v)],
                                            n as nat,
                                            spec_parse_elems(
                                                s.subrange(cur as int + n as int, s.len() as int),
                                                (rem - 1) as nat,
                                            ),
                                        ));
                                        let a0 = resp_seq_view(acc@);
                                        let a1 = resp_seq_view(acc@.push(v));
                                        lemma_resp_seq_view(acc@);
                                        lemma_resp_seq_view(acc@.push(v));
                                        assert forall|k: int| 0 <= k < a1.len() implies a1[k]
                                            == a0.push(resp_view(v))[k] by {
                                            assert(acc@.push(v)[k] == if k < acc@.len() {
                                                acc@[k]
                                            } else {
                                                v
                                            });
                                        }
                                        assert(a1 =~= a0.push(resp_view(v)));
                                        let e2 = spec_parse_elems(
                                            s.subrange(cur as int + n as int, s.len() as int),
                                            (rem - 1) as nat,
                                        );
                                        assert(a0 + (seq![resp_view(v)]) =~= a0.push(
                                            resp_view(v),
                                        ));
                                        match e2 {
                                            ElemsOut::Vals(ws, m) => {
                                                assert(a0 + (seq![resp_view(v)] + ws) =~= (a0
                                                    + seq![resp_view(v)]) + ws);
                                            },
                                            ElemsOut::More => {},
                                            ElemsOut::Bad => {},
                                        }
                                    }
                                    acc.push(v);
                                    cur = cur + n;
                                },
                                Err(e) => {
                                    proof {
                                        let tail = s.subrange(cur as int, s.len() as int);
                                        match e {
                                            ParseError::Incomplete => {
                                                assert(spec_parse_elems(tail, rem)
                                                    == ElemsOut::More);
                                            },
                                            ParseError::Malformed => {
                                                assert(spec_parse_elems(tail, rem)
                                                    == ElemsOut::Bad);
                                            },
                                        }
                                    }
                                    return Err(e);
                                },
                            }
                        }
                        proof {
                            assert(spec_parse_elems(
                                s.subrange(cur as int, s.len() as int),
                                (total - acc.len()) as nat,
                            ) == ElemsOut::Vals(Seq::empty(), 0));
                            let e = spec_parse_elems(
                                s.subrange(start as int, s.len() as int),
                                total,
                            );
                            assert(resp_seq_view(acc@) + Seq::<RespData>::empty() =~= resp_seq_view(
                                acc@,
                            ));
                            assert(e == ElemsOut::Vals(resp_seq_view(acc@), (cur - start) as nat));
                        }
                        Ok((RespValue::Array(acc), cur))
                    },
                }
            }
        },
    }
}

/// Parse one frame from the front of the buffer: the parsed value and the
/// exact byte count it occupies, or the need-more-data or malformed signal,
/// exactly as [`spec_parse`] says.
pub fn parse_msg(buf: &[u8]) -> (r: Result<(RespValue, usize), ParseError>)
    ensures
        parse_result_matches(r, spec_parse(buf@)),
        r matches Ok(p) ==> 3 <= p.1 <= buf@.len(),
    decreases buf@.len(), 1nat,
{
    if buf.len() == 0 {
        return Err(ParseError::Incomplete);
    }
    let b = buf[0];
    if b == 43 {
        parse_simple(buf)
    } else if b == 45 {
        parse_error_line(buf)
    } else if b == 58 {
        parse_int(buf)
    } else if b == 36 {
        parse_bulk(buf)
    } else if b == 42 {
        parse_array(buf)
    } else {
        Err(ParseError::Malformed)
    }
}

/// A frame value the library itself would produce: line bodies carry
/// no CR or LF, lengths and counts fit the wire's unsigned range, and
/// integers fit the wire's signed range.
pub open spec fn resp_wf(v: RespData) -> bool
    decreases v,
{
    match v {
        RespData::SimpleString(s) => forall|i: int| 0 <= i < s.len() ==> #[trigger] s[i] != 13 && s[i] != 10,
        RespData::SimpleError(s) => forall|i: int| 0 <= i < s.len() ==> #[trigger] s[i] != 13 && s[i] != 10,
        RespData::Integer(n) => i64::MIN <= n <= i64::MAX,
        RespData::BulkString(s) => s.len() <= u64::MAX,
        RespData::NullBulkString => true,
        RespData::NullArray => true,
        RespData::Array(items) => items.len() <= u64::MAX && (forall|i: int|
            0 <= i < items.len() ==> resp_wf(#[trigger] items[i])),
    }
}

/// In a buffer starting with a CR/LF-free run and its terminator, the
/// first CRLF sits exactly at the end of the run.
proof fn lemma_find_crlf_clean_prefix(body: Seq<u8>, rest: Seq<u8>)
    requires
        forall|i: int| 0 <= i < body.len() ==> #[trigger] body[i] != 13 && body[i] != 10,
    ensures
        spec_find_crlf(body + crlf() + rest) == Some(body.len()),
{
    let s = body + crlf() + rest;
    assert(s[body.len() as int] == 13);
    assert(s[body.len() as int + 1] == 10);
    assert forall|j: int| 0 <= j < body.len() implies !(#[trigger] s[j] == 13 && s[j + 1] == 10) by {
        assert(s[j] == body[j]);
    }
    lemma_find_crlf_unique(s, body.len());
}

/// The parser inverts the encoder: the strict parse of an encoded
/// well-formed frame, whatever follows it, returns exactly that frame
/// and consumes exactly its encoding.
#[verifier::rlimit(100)]
#[verifier::spinoff_prover]
pub proof fn lemma_parse_encode(v: RespData, rest: Seq<u8>)
    requires
        resp_wf(v),
    ensures
        spec_parse(spec_encode(v) + rest) == ParseOut::Val(v, spec_encode(v).len()),
    decreases v,
{
    let e = spec_encode(v);
    let s = e + rest;
    match v {
        RespData::SimpleString(body) => {
            assert(s[0] == 43);
            assert(s.subrange(1, s.len() as int) =~= body + crlf() + rest);
            lemma_find_crlf_clean_prefix(body, rest);
            assert(s.subrange(1, 1 + body.len() as int) =~= body);
        },
        RespData::SimpleError(body) => {
            assert(s[0] == 45);
            assert(s.subrange(1, s.len() as int) =~= body + crlf() + rest);
            lemma_find_crlf_clean_prefix(body, rest);
            assert(s.subrange(1, 1 + body.len() as int) =~= body);
        },
        RespData::Integer(n) => {
            let d = crate::bytesutil::spec_i64_digits(n);
            crate::bytesutil::lemma_i64_digits_canonical(n);
            assert(s[0] == 58);
            assert(s.subrange(1, s.len() as int) =~= d + crlf() + rest);
            assert forall|i: int| 0 <= i < d.len() implies #[trigger] d[i] != 13 && d[i] != 10 by {
                assert(45 <= d[i] <= 57);
            }
            lemma_find_crlf_clean_prefix(d, rest);
            assert(s.subrange(1, 1 + d.len() as int) =~= d);
        },
        RespData::BulkString(body) => {
            let ld = crate::bytesutil::spec_u64_digits(body.len());
            crate::bytesutil::lemma_u64_digits_props(body.len());
            assert(s[0] == 36);
            assert(s.subrange(1, s.len() as int) =~= ld + crlf() + (body + crlf() + rest));
            assert forall|i: int| 0 <= i < ld.len() implies #[trigger] ld[i] != 13 && ld[i]
                != 10 by {
                assert(crate::bytesutil::is_digit(ld[i]));
            }
            lemma_find_crlf_clean_prefix(ld, body + crlf() + rest);
            let i = ld.len() as int;
            let d = s.subrange(1, 1 + i);
            assert(d =~= ld);
            if d == seq![45u8, 49u8] {
                assert(crate::bytesutil::is_digit(d[0]));
                assert(false);
            }
            let l = crate::bytesutil::dec_val(d);
            assert(l == body.len());
            assert(s.len() == 1 + i + 2 + l + 2 + rest.len());
            assert(s[i + 3 + l as int] == 13) by {
                assert(s[i + 3 + l as int] == e[i + 3 + l as int]);
            }
            assert(s[i + 3 + l as int + 1] == 10) by {
                assert(s[i + 3 + l as int + 1] == e[i + 3 + l as int + 1]);
            }
            assert(s.subrange(i + 3, i + 3 + l as int) =~= body);
        },
        RespData::NullBulkString => {
            assert(s[0] == 36);
            let s1 = s.subrange(1, s.len() as int);
            assert(s1 =~= seq![45u8, 49u8, 13u8, 10u8] + rest);
            assert(s1[2] == 13 && s1[3] == 10);
            assert forall|j: int| 0 <= j < 2 implies !(#[trigger] s1[j] == 13 && s1[j + 1]
                == 10) by {}
            lemma_find_crlf_unique(s1, 2);
            assert(s.subrange(1, 3) =~= seq![45u8, 49u8]);
        },
        RespData::NullArray => {
            assert(s[0] == 42);
            let s1 = s.subrange(1, s.len() as int);
            assert(s1 =~= seq![45u8, 49u8, 13u8, 10u8] + rest);
            assert(s1[2] == 13 && s1[3] == 10);
            assert forall|j: int| 0 <= j < 2 implies !(#[trigger] s1[j] == 13 && s1[j + 1]
                == 10) by {}
            lemma_find_crlf_unique(s1, 2);
            assert(s.subrange(1, 3) =~= seq![45u8, 49u8]);
        },
        RespData::Array(items) => {
            let cd = crate::bytesutil::spec_u64_digits(items.len());
            crate::bytesutil::lemma_u64_digits_props(items.len());
            assert(s[0] == 42);
            assert(s.subrange(1, s.len() as int) =~= cd + crlf() + (spec_encode_seq(items)
                + rest));
            assert forall|i: int| 0 <= i < cd.len() implies #[trigger] cd[i] != 13 && cd[i]
                != 10 by {
                assert(crate::bytesutil::is_digit(cd[i]));
            }
            lemma_find_crlf_clean_prefix(cd, spec_encode_seq(items) + rest);
            let i = cd.len() as int;
            let d = s.subrange(1, 1 + i);
            assert(d =~= cd);
            if d == seq![45u8, 49u8] {
                assert(crate::bytesutil::is_digit(d[0]));
                assert(false);
            }
            assert(crate::bytesutil::dec_val(d) == items.len());
            assert(i + 3 <= s.len());
            assert(s.subrange(i + 3, s.len() as int) =~= spec_encode_seq(items) + rest);
            lemma_parse_encode_seq(items, rest);
            assert(spec_parse_elems(s.subrange(i + 3, s.len() as int), items.len())
                == ElemsOut::Vals(items, spec_encode_seq(items).len()));
        },
    }
}

/// The parse of a run of encoded frames returns exactly those frames
/// and consumes exactly their encodings.
pub proof fn lemma_parse_encode_seq(items: Seq<RespData>, rest: Seq<u8>)
    requires
        forall|i: int| 0 <= i < items.len() ==> resp_wf(#[trigger] items[i]),
    ensures
        spec_parse_elems(spec_encode_seq(items) + rest, items.len()) == ElemsOut::Vals(
            items,
            spec_encode_seq(items).len(),
        ),
    decreases items,
{
    if items.len() == 0 {
        assert(spec_encode_seq(items) =~= Seq::<u8>::empty());
        assert(spec_parse_elems(spec_encode_seq(items) + rest, 0) == ElemsOut::Vals(
            Seq::empty(),
            0,
        ));
        assert(items =~= Seq::<RespData>::empty());
    } else {
        let head = items[0];
        let tail = items.subrange(1, items.len() as int);
        let e0 = spec_encode(head);
        let etail = spec_encode_seq(tail);
        let s = spec_encode_seq(items) + rest;
        assert(s =~= e0 + (etail + rest));
        lemma_parse_encode(head, etail + rest);
        assert(spec_parse(s) == ParseOut::Val(head, e0.len()));
        assert(e0.len() <= s.len());
        assert(s.subrange(e0.len() as int, s.len() as int) =~= etail + rest);
        lemma_parse_encode_seq(tail, rest);
        assert(spec_parse_elems(s.subrange(e0.len() as int, s.len() as int), tail.len())
            == ElemsOut::Vals(tail, etail.len()));
        assert(seq![head] + tail =~= items);
        assert(spec_encode_seq(items).len() == e0.len() + etail.len());
    }
}

} // verus!
