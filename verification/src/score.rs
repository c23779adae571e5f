//! Sorted-set scores as exact decimals: a sign, an integer part and a
//! fraction, kept in canonical form (no trailing fraction zeros, no
//! negative zero).  The ordering over them is a strict total order, proved
//! transitive and connected, which is what keeps a sorted set sorted.

use vstd::prelude::*;

use crate::bytesutil::all_digits;
use crate::bytesutil::dec_val;
use crate::bytesutil::parse_u64;
use crate::bytesutil::spec_u64_digits;
use crate::bytesutil::u64_to_dec;

verus! {

/// An exact decimal score.  `frac` holds fraction digit values (`0..=9`),
/// most significant first.
pub struct Score {
    pub neg: bool,
    pub int_part: u64,
    pub frac: Vec<u8>,
}

/// Canonical form: fraction digits below ten, no trailing zero digit, and
/// no negative zero.
pub open spec fn score_wf(s: Score) -> bool {
    &&& forall|i: int| 0 <= i < s.frac@.len() ==> #[trigger] s.frac@[i] < 10
    &&& s.frac@.len() > 0 ==> s.frac@.last() != 0
    &&& s.neg ==> s.int_part > 0 || s.frac@.len() > 0
}

/// Value equality of scores (canonical forms are equal exactly when their
/// parts are).
pub open spec fn score_eqv(a: Score, b: Score) -> bool {
    a.neg == b.neg && a.int_part == b.int_part && a.frac@ == b.frac@
}

/// Fraction-digit order: lexicographic, where a missing digit reads as
/// zero.
pub open spec fn frac_lt(x: Seq<u8>, y: Seq<u8>) -> bool
    decreases x.len() + y.len(),
{
    if y.len() == 0 {
        false
    } else if x.len() == 0 {
        true
    } else if x[0] != y[0] {
        x[0] < y[0]
    } else {
        frac_lt(x.subrange(1, x.len() as int), y.subrange(1, y.len() as int))
    }
}

/// Magnitude order: integer part first, then the fraction.
pub open spec fn mag_lt(a: Score, b: Score) -> bool {
    a.int_part < b.int_part || (a.int_part == b.int_part && frac_lt(a.frac@, b.frac@))
}

/// The score order: negatives first, magnitudes reversed on the negative
/// side.
pub open spec fn score_lt(a: Score, b: Score) -> bool {
    if a.neg && !b.neg {
        true
    } else if !a.neg && b.neg {
        false
    } else if !a.neg && !b.neg {
        mag_lt(a, b)
    } else {
        mag_lt(b, a)
    }
}

/// Fraction order is irreflexive.
pub proof fn lemma_frac_lt_irrefl(x: Seq<u8>)
    ensures
        !frac_lt(x, x),
    decreases x.len(),
{
    if x.len() > 0 {
        lemma_frac_lt_irrefl(x.subrange(1, x.len() as int));
    }
}

/// Fraction order is connected: incomparable fractions are equal.
pub proof fn lemma_frac_lt_connex(x: Seq<u8>, y: Seq<u8>)
    requires
        !frac_lt(x, y),
        !frac_lt(y, x),
    ensures
        x == y,
    decreases x.len() + y.len(),
{
    if x.len() == 0 && y.len() == 0 {
        assert(x =~= y);
    } else if x.len() == 0 {
        assert(frac_lt(x, y));
    } else if y.len() == 0 {
        assert(frac_lt(y, x));
    } else if x[0] != y[0] {
    } else {
        lemma_frac_lt_connex(x.subrange(1, x.len() as int), y.subrange(1, y.len() as int));
        assert(x =~= seq![x[0]] + x.subrange(1, x.len() as int));
        assert(y =~= seq![y[0]] + y.subrange(1, y.len() as int));
    }
}

/// Fraction order is transitive.
pub proof fn lemma_frac_lt_trans(x: Seq<u8>, y: Seq<u8>, z: Seq<u8>)
    requires
        frac_lt(x, y),
        frac_lt(y, z),
    ensures
        frac_lt(x, z),
    decreases x.len() + y.len() + z.len(),
{
    if y.len() == 0 {
    } else if z.len() == 0 {
    } else if x.len() == 0 {
    } else {
        if x[0] != y[0] {
            if y[0] != z[0] {
            } else {
            }
        } else {
            if y[0] != z[0] {
            } else {
                lemma_frac_lt_trans(
                    x.subrange(1, x.len() as int),
                    y.subrange(1, y.len() as int),
                    z.subrange(1, z.len() as int),
                );
            }
        }
    }
}

/// The score order is irreflexive.
pub proof fn lemma_score_lt_irrefl(a: Score)
    ensures
        !score_lt(a, a),
{
    lemma_frac_lt_irrefl(a.frac@);
}

/// The score order is connected: incomparable scores are value-equal.
pub proof fn lemma_score_lt_connex(a: Score, b: Score)
    requires
        !score_lt(a, b),
        !score_lt(b, a),
    ensures
        score_eqv(a, b),
{
    if a.neg == b.neg {
        if a.neg {
            lemma_frac_lt_connex(b.frac@, a.frac@);
        } else {
            lemma_frac_lt_connex(a.frac@, b.frac@);
        }
    }
}

/// Magnitude order is transitive.
pub proof fn lemma_mag_lt_trans(a: Score, b: Score, c: Score)
    requires
        mag_lt(a, b),
        mag_lt(b, c),
    ensures
        mag_lt(a, c),
{
    if a.int_part == b.int_part && b.int_part == c.int_part {
        lemma_frac_lt_trans(a.frac@, b.frac@, c.frac@);
    }
}

/// The score order is transitive.
pub proof fn lemma_score_lt_trans(a: Score, b: Score, c: Score)
    requires
        score_lt(a, b),
        score_lt(b, c),
    ensures
        score_lt(a, c),
{
    if a.neg && b.neg && c.neg {
        lemma_mag_lt_trans(c, b, a);
    } else if !a.neg && !b.neg && !c.neg {
        lemma_mag_lt_trans(a, b, c);
    }
}

/// A score with no fraction, from an unsigned integer.
pub fn score_from_u64(v: u64) -> (r: Score)
    ensures
        score_wf(r),
        r.neg == false,
        r.int_part == v,
        r.frac@ =~= Seq::<u8>::empty(),
{
    Score { neg: false, int_part: v, frac: Vec::new() }
}

/// Fraction digits with trailing zeros removed.
pub open spec fn strip_zeros(s: Seq<u8>) -> Seq<u8>
    decreases s.len(),
{
    if s.len() == 0 {
        s
    } else if s.last() == 0 {
        strip_zeros(s.drop_last())
    } else {
        s
    }
}

/// Stripping leaves a prefix with no trailing zero and the dropped suffix
/// all zeros.
pub proof fn lemma_strip_zeros(s: Seq<u8>)
    ensures
        strip_zeros(s).len() <= s.len(),
        strip_zeros(s) == s.subrange(0, strip_zeros(s).len() as int),
        strip_zeros(s).len() > 0 ==> strip_zeros(s).last() != 0,
        forall|i: int| strip_zeros(s).len() <= i < s.len() ==> #[trigger] s[i] == 0,
    decreases s.len(),
{
    if s.len() == 0 {
        assert(strip_zeros(s) =~= s.subrange(0, 0));
    } else if s.last() == 0 {
        let d = s.drop_last();
        lemma_strip_zeros(d);
        assert(d =~= s.subrange(0, s.len() - 1));
        assert(strip_zeros(s) == strip_zeros(d));
        assert(d.subrange(0, strip_zeros(s).len() as int) =~= s.subrange(
            0,
            strip_zeros(s).len() as int,
        ));
        assert forall|i: int| strip_zeros(s).len() <= i < s.len() implies #[trigger] s[i] == 0 by {
            if i < s.len() - 1 {
                assert(d[i] == s[i]);
            }
        }
    } else {
        assert(strip_zeros(s) =~= s.subrange(0, s.len() as int));
    }
}

/// First position of byte `b`, if any.
pub open spec fn spec_find_byte(s: Seq<u8>, b: u8) -> Option<nat>
    decreases s.len(),
{
    if s.len() == 0 {
        None
    } else if s[0] == b {
        Some(0)
    } else {
        match spec_find_byte(s.subrange(1, s.len() as int), b) {
            None => None,
            Some(i) => Some((i + 1) as nat),
        }
    }
}

/// What [`spec_find_byte`] finds.
pub proof fn lemma_find_byte_props(s: Seq<u8>, b: u8)
    ensures
        match spec_find_byte(s, b) {
            Some(i) => i < s.len() && s[i as int] == b && forall|j: int|
                0 <= j < i ==> #[trigger] s[j] != b,
            None => forall|j: int| 0 <= j < s.len() ==> #[trigger] s[j] != b,
        },
    decreases s.len(),
{
    if s.len() > 0 && s[0] != b {
        let rest = s.subrange(1, s.len() as int);
        lemma_find_byte_props(rest, b);
        match spec_find_byte(rest, b) {
            Some(i) => {
                assert forall|j: int| 0 <= j < i + 1 implies #[trigger] s[j] != b by {
                    if j > 0 {
                        assert(rest[j - 1] == s[j]);
                    }
                }
            },
            None => {
                assert forall|j: int| 0 <= j < s.len() implies #[trigger] s[j] != b by {
                    if j > 0 {
                        assert(rest[j - 1] == s[j]);
                    }
                }
            },
        }
    }
}

/// The first position of a byte is determined by its characterization.
pub proof fn lemma_find_byte_unique(s: Seq<u8>, b: u8, i: nat)
    requires
        i < s.len(),
        s[i as int] == b,
        forall|j: int| 0 <= j < i ==> #[trigger] s[j] != b,
    ensures
        spec_find_byte(s, b) == Some(i),
    decreases s.len(),
{
    if i > 0 {
        let rest = s.subrange(1, s.len() as int);
        assert forall|j: int| 0 <= j < i - 1 implies #[trigger] rest[j] != b by {
            assert(rest[j] == s[j + 1]);
        }
        assert(rest[i - 1] == b);
        lemma_find_byte_unique(rest, b, (i - 1) as nat);
    }
}

/// Find the first occurrence of a byte.
pub fn find_byte(s: &Vec<u8>, b: u8) -> (r: Option<usize>)
    ensures
        r is Some <==> spec_find_byte(s@, b) is Some,
        r is Some ==> r->Some_0 as nat == spec_find_byte(s@, b)->Some_0 && r->Some_0 < s@.len(),
{
    let mut i: usize = 0;
    while i < s.len()
        invariant
            i <= s@.len(),
            forall|j: int| 0 <= j < i ==> #[trigger] s@[j] != b,
        decreases s@.len() - i,
    {
        if s[i] == b {
            proof {
                lemma_find_byte_unique(s@, b, i as nat);
            }
            return Some(i);
        }
        i += 1;
    }
    proof {
        lemma_find_byte_props(s@, b);
        if spec_find_byte(s@, b) is Some {
            assert(false);
        }
    }
    None
}

/// The decimal score grammar: an optional `-`, one or more integer digits
/// whose value fits a `u64`, then optionally a dot and one or more
/// fraction digits.
pub open spec fn valid_score_bytes(s: Seq<u8>) -> bool {
    let body = if s.len() > 0 && s[0] == 45 {
        s.subrange(1, s.len() as int)
    } else {
        s
    };
    match spec_find_byte(body, 46) {
        None => body.len() > 0 && all_digits(body) && dec_val(body) <= u64::MAX,
        Some(d) => {
            let ip = body.subrange(0, d as int);
            let fp = body.subrange(d as int + 1, body.len() as int);
            &&& ip.len() > 0
            &&& all_digits(ip)
            &&& dec_val(ip) <= u64::MAX
            &&& fp.len() > 0
            &&& all_digits(fp)
        },
    }
}

/// The parts (sign, integer value, canonical fraction digits) a valid
/// byte string denotes.
pub open spec fn spec_score_parts(s: Seq<u8>) -> (bool, nat, Seq<u8>) {
    let sign = s.len() > 0 && s[0] == 45;
    let body = if sign {
        s.subrange(1, s.len() as int)
    } else {
        s
    };
    let ipfp = match spec_find_byte(body, 46) {
        None => (body, Seq::<u8>::empty()),
        Some(d) => (body.subrange(0, d as int), body.subrange(d as int + 1, body.len() as int)),
    };
    let ival = dec_val(ipfp.0);
    let fdigits = strip_zeros(ipfp.1.map_values(|b: u8| (b - 48) as u8));
    (sign && (ival > 0 || fdigits.len() > 0), ival, fdigits)
}

/// Parse a decimal score.  Succeeds exactly on the score grammar and
/// returns the canonical form of the denoted value.
pub fn score_parse(s: &Vec<u8>) -> (r: Option<Score>)
    ensures
        r is Some <==> valid_score_bytes(s@),
        r is Some ==> {
            let sc = r->Some_0;
            &&& score_wf(sc)
            &&& sc.neg == spec_score_parts(s@).0
            &&& sc.int_part as nat == spec_score_parts(s@).1
            &&& sc.frac@ == spec_score_parts(s@).2
        },
{
    let sign = s.len() > 0 && s[0] == 45;
    let mut body: Vec<u8> = Vec::new();
    let mut i: usize = if sign { 1 } else { 0 };
    let ghost b0 = i as int;
    while i < s.len()
        invariant
            b0 <= i <= s@.len(),
            b0 == if sign { 1int } else { 0int },
            body@ =~= s@.subrange(b0, i as int),
        decreases s@.len() - i,
    {
        body.push(s[i]);
        i += 1;
    }
    proof {
        assert(body@ =~= if sign { s@.subrange(1, s@.len() as int) } else { s@ });
    }
    let dot = find_byte(&body, 46);
    let mut ip: Vec<u8> = Vec::new();
    let mut fp: Vec<u8> = Vec::new();
    match dot {
        None => {
            let mut j: usize = 0;
            while j < body.len()
                invariant
                    j <= body@.len(),
                    ip@ =~= body@.subrange(0, j as int),
                decreases body@.len() - j,
            {
                ip.push(body[j]);
                j += 1;
            }
            proof {
                assert(ip@ =~= body@);
            }
        },
        Some(d) => {
            let mut j: usize = 0;
            while j < d
                invariant
                    j <= d < body@.len(),
                    ip@ =~= body@.subrange(0, j as int),
                decreases d - j,
            {
                ip.push(body[j]);
                j += 1;
            }
            let mut j2: usize = d + 1;
            while j2 < body.len()
                invariant
                    d + 1 <= j2 <= body@.len(),
                    fp@ =~= body@.subrange(d as int + 1, j2 as int),
                decreases body@.len() - j2,
            {
                fp.push(body[j2]);
                j2 += 1;
            }
            proof {
                assert(fp@ =~= body@.subrange(d as int + 1, body@.len() as int));
            }
        },
    }
    if !crate::bytesutil::all_ascii_digits(&fp) {
        return None;
    }
    if dot.is_some() && fp.len() == 0 {
        return None;
    }
    match parse_u64(&ip) {
        None => None,
        Some(ival) => {
            // canonical fraction: digit values, trailing zeros stripped
            let mut fd: Vec<u8> = Vec::new();
            let mut k2: usize = 0;
            while k2 < fp.len()
                invariant
                    k2 <= fp@.len(),
                    all_digits(fp@),
                    fd@ =~= fp@.subrange(0, k2 as int).map_values(|b: u8| (b - 48) as u8),
                decreases fp@.len() - k2,
            {
                fd.push(fp[k2] - 48);
                proof {
                    assert(fd@ =~= fp@.subrange(0, k2 as int + 1).map_values(
                        |b: u8| (b - 48) as u8,
                    ));
                }
                k2 += 1;
            }
            proof {
                assert(fp@.subrange(0, fp@.len() as int) =~= fp@);
            }
            while fd.len() > 0 && fd[fd.len() - 1] == 0
                invariant
                    strip_zeros(fd@) == strip_zeros(fp@.map_values(|b: u8| (b - 48) as u8)),
                    forall|j: int| 0 <= j < fd@.len() ==> #[trigger] fd@[j] < 10,
                decreases fd@.len(),
            {
                proof {
                    assert(fd@.drop_last() =~= fd@.subrange(0, fd@.len() - 1));
                }
                fd.pop();
            }
            proof {
                assert(strip_zeros(fd@) == fd@);
            }
            let neg = sign && (ival > 0 || fd.len() > 0);
            Some(Score { neg, int_part: ival, frac: fd })
        },
    }
}

/// The canonical byte rendering of a score.
pub open spec fn spec_score_bytes(s: Score) -> Seq<u8> {
    let sign: Seq<u8> = if s.neg {
        seq![45u8]
    } else {
        Seq::empty()
    };
    let frac: Seq<u8> = if s.frac@.len() > 0 {
        seq![46u8] + s.frac@.map_values(|d: u8| (d + 48) as u8)
    } else {
        Seq::empty()
    };
    sign + spec_u64_digits(s.int_part as nat) + frac
}

/// Render a score canonically.
pub fn score_format(s: &Score) -> (r: Vec<u8>)
    requires
        score_wf(*s),
    ensures
        r@ == spec_score_bytes(*s),
{
    let mut out: Vec<u8> = Vec::new();
    if s.neg {
        out.push(45);
    }
    let mut digits = u64_to_dec(s.int_part);
    out.append(&mut digits);
    if s.frac.len() > 0 {
        out.push(46);
        let mut k: usize = 0;
        let ghost base = out@;
        while k < s.frac.len()
            invariant
                k <= s.frac@.len(),
                forall|j: int| 0 <= j < s.frac@.len() ==> #[trigger] s.frac@[j] < 10,
                out@ =~= base + s.frac@.subrange(0, k as int).map_values(|d: u8| (d + 48) as u8),
            decreases s.frac@.len() - k,
        {
            out.push(s.frac[k] + 48);
            proof {
                assert(out@ =~= base + s.frac@.subrange(0, k as int + 1).map_values(
                    |d: u8| (d + 48) as u8,
                ));
            }
            k += 1;
        }
        proof {
            assert(s.frac@.subrange(0, s.frac@.len() as int) =~= s.frac@);
        }
    }
    proof {
        assert(out@ =~= spec_score_bytes(*s));
    }
    out
}

/// Compare fraction digit runs.
pub fn frac_less(x: &Vec<u8>, y: &Vec<u8>) -> (r: bool)
    ensures
        r == frac_lt(x@, y@),
{
    proof {
        assert(x@.subrange(0, x@.len() as int) =~= x@);
        assert(y@.subrange(0, y@.len() as int) =~= y@);
    }
    let mut i: usize = 0;
    loop
        invariant
            i <= x@.len(),
            i <= y@.len(),
            frac_lt(x@, y@) == frac_lt(
                x@.subrange(i as int, x@.len() as int),
                y@.subrange(i as int, y@.len() as int),
            ),
        decreases x@.len() - i,
    {
        let ghost xs = x@.subrange(i as int, x@.len() as int);
        let ghost ys = y@.subrange(i as int, y@.len() as int);
        if i >= y.len() {
            proof {
                assert(ys.len() == 0);
            }
            return false;
        }
        if i >= x.len() {
            proof {
                assert(xs.len() == 0 && ys.len() > 0);
            }
            return true;
        }
        if x[i] != y[i] {
            proof {
                assert(xs[0] == x@[i as int] && ys[0] == y@[i as int]);
            }
            return x[i] < y[i];
        }
        proof {
            assert(xs[0] == ys[0]);
            assert(xs.subrange(1, xs.len() as int) =~= x@.subrange(i + 1, x@.len() as int));
            assert(ys.subrange(1, ys.len() as int) =~= y@.subrange(i + 1, y@.len() as int));
        }
        i += 1;
    }
}

/// Compare scores in the score order.
pub fn score_less(a: &Score, b: &Score) -> (r: bool)
    ensures
        r == score_lt(*a, *b),
{
    if a.neg && !b.neg {
        true
    } else if !a.neg && b.neg {
        false
    } else if !a.neg {
        if a.int_part < b.int_part {
            true
        } else if a.int_part == b.int_part {
            frac_less(&a.frac, &b.frac)
        } else {
            false
        }
    } else {
        if b.int_part < a.int_part {
            true
        } else if a.int_part == b.int_part {
            frac_less(&b.frac, &a.frac)
        } else {
            false
        }
    }
}

/// Value equality of scores.
pub fn score_eq(a: &Score, b: &Score) -> (r: bool)
    ensures
        r == score_eqv(*a, *b),
{
    a.neg == b.neg && a.int_part == b.int_part && crate::bytesutil::bytes_eq(&a.frac, &b.frac)
}

/// Copy a score.
pub fn score_clone(s: &Score) -> (r: Score)
    ensures
        r.neg == s.neg,
        r.int_part == s.int_part,
        r.frac@ == s.frac@,
{
    let mut f: Vec<u8> = Vec::new();
    let mut i: usize = 0;
    while i < s.frac.len()
        invariant
            i <= s.frac@.len(),
            f@ =~= s.frac@.subrange(0, i as int),
        decreases s.frac@.len() - i,
    {
        f.push(s.frac[i]);
        i += 1;
    }
    proof {
        assert(f@ =~= s.frac@);
    }
    Score { neg: s.neg, int_part: s.int_part, frac: f }
}

} // verus!
