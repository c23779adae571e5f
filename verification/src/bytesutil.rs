//! Helpers on byte vectors: comparison, ASCII case folding, and the decimal
//! digit conversions the wire codec is built on.

use vstd::prelude::*;
use vstd::string::StrSliceExecFns;
use vstd::string::StringSliceAdditionalSpecFns;

verus! {

/// ASCII decimal digit.
pub open spec fn is_digit(b: u8) -> bool {
    48 <= b <= 57
}

/// Every byte of the sequence is an ASCII decimal digit.
pub open spec fn all_digits(s: Seq<u8>) -> bool {
    forall|i: int| 0 <= i < s.len() ==> is_digit(#[trigger] s[i])
}

/// Value of a sequence of ASCII decimal digits, most significant first.
pub open spec fn dec_val(s: Seq<u8>) -> nat
    decreases s.len(),
{
    if s.len() == 0 {
        0
    } else {
        dec_val(s.drop_last()) * 10 + (s.last() - 48) as nat
    }
}

/// Decimal digits of `n`, most significant first, no leading zeros.
pub open spec fn spec_u64_digits(n: nat) -> Seq<u8>
    decreases n,
{
    if n < 10 {
        seq![(48 + n) as u8]
    } else {
        spec_u64_digits(n / 10).push((48 + n % 10) as u8)
    }
}

/// Decimal rendering of a signed number: a `-` sign, then the digits of the
/// magnitude.
pub open spec fn spec_i64_digits(n: int) -> Seq<u8> {
    if n < 0 {
        seq![45u8] + spec_u64_digits((-n) as nat)
    } else {
        spec_u64_digits(n as nat)
    }
}

/// Upper-case image of one byte: ASCII lower-case letters are folded, all
/// other bytes kept.
pub open spec fn upper_byte(b: u8) -> u8 {
    if 97 <= b <= 122 {
        (b - 32) as u8
    } else {
        b
    }
}

/// ASCII upper-case image of a byte sequence.
pub open spec fn spec_upper(s: Seq<u8>) -> Seq<u8> {
    s.map_values(|b: u8| upper_byte(b))
}

/// Exact byte equality of two vectors.
pub fn bytes_eq(a: &Vec<u8>, b: &Vec<u8>) -> (r: bool)
    ensures
        r <==> a@ == b@,
{
    if a.len() != b.len() {
        return false;
    }
    let mut i: usize = 0;
    while i < a.len()
        invariant
            a.len() == b.len(),
            i <= a.len(),
            forall|j: int| 0 <= j < i ==> a@[j] == b@[j],
        decreases a.len() - i,
    {
        if a[i] != b[i] {
            return false;
        }
        i += 1;
    }
    proof {
        assert(a@ =~= b@);
    }
    true
}

/// Byte equality of a vector against a borrowed slice.
pub fn bytes_eq_slice(a: &Vec<u8>, b: &[u8]) -> (r: bool)
    ensures
        r <==> a@ == b@,
{
    if a.len() != b.len() {
        return false;
    }
    let mut i: usize = 0;
    while i < a.len()
        invariant
            a.len() == b.len(),
            i <= a.len(),
            forall|j: int| 0 <= j < i ==> a@[j] == b@[j],
        decreases a.len() - i,
    {
        if a[i] != b[i] {
            return false;
        }
        i += 1;
    }
    proof {
        assert(a@ =~= b@);
    }
    true
}

/// Copy a byte vector.
pub fn bytes_clone(v: &Vec<u8>) -> (r: Vec<u8>)
    ensures
        r@ == v@,
{
    let mut r: Vec<u8> = Vec::new();
    let mut i: usize = 0;
    while i < v.len()
        invariant
            i <= v@.len(),
            r@ =~= v@.subrange(0, i as int),
        decreases v@.len() - i,
    {
        r.push(v[i]);
        i += 1;
    }
    proof {
        assert(r@ =~= v@);
    }
    r
}

/// ASCII upper-case copy of a byte vector.
pub fn to_upper(s: &Vec<u8>) -> (r: Vec<u8>)
    ensures
        r@ == spec_upper(s@),
{
    let mut r: Vec<u8> = Vec::new();
    let mut i: usize = 0;
    while i < s.len()
        invariant
            i <= s.len(),
            r@.len() == i,
            forall|j: int| 0 <= j < i ==> r@[j] == upper_byte(s@[j]),
        decreases s.len() - i,
    {
        let b = s[i];
        if 97 <= b && b <= 122 {
            r.push(b - 32);
        } else {
            r.push(b);
        }
        i += 1;
    }
    proof {
        assert(r@ =~= spec_upper(s@));
    }
    r
}

/// The bytes of an ASCII string slice, as a vector.
pub fn str_bytes(s: &str) -> (r: Vec<u8>)
    ensures
        r@ == s.spec_bytes(),
{
    s.as_bytes_vec()
}

/// Decimal digits of an unsigned number, most significant first.
pub fn u64_to_dec(n: u64) -> (r: Vec<u8>)
    ensures
        r@ == spec_u64_digits(n as nat),
    decreases n,
{
    if n < 10 {
        let mut r: Vec<u8> = Vec::new();
        r.push(48 + n as u8);
        r
    } else {
        let mut r = u64_to_dec(n / 10);
        r.push(48 + (n % 10) as u8);
        r
    }
}

/// Decimal rendering of a signed number.
pub fn i64_to_dec(n: i64) -> (r: Vec<u8>)
    ensures
        r@ == spec_i64_digits(n as int),
{
    if n >= 0 {
        u64_to_dec(n as u64)
    } else {
        let m: u64 = (-(n as i128)) as u64;
        let mut r: Vec<u8> = Vec::new();
        r.push(45);
        let mut digits = u64_to_dec(m);
        r.append(&mut digits);
        proof {
            assert(r@ =~= spec_i64_digits(n as int));
        }
        r
    }
}

/// The value of a digit prefix never exceeds the value of the whole digit
/// string.
proof fn lemma_dec_val_prefix(s: Seq<u8>, i: int)
    requires
        0 <= i <= s.len(),
        all_digits(s),
    ensures
        dec_val(s.subrange(0, i)) <= dec_val(s),
    decreases s.len() - i,
{
    if i < s.len() {
        lemma_dec_val_prefix(s, i + 1);
        let shorter = s.subrange(0, i);
        let longer = s.subrange(0, i + 1);
        assert(longer.drop_last() =~= shorter);
        assert(dec_val(longer) == dec_val(shorter) * 10 + (longer.last() - 48));
    } else {
        assert(s.subrange(0, i) =~= s);
    }
}

/// Do all bytes hold ASCII digits?
pub fn all_ascii_digits(v: &Vec<u8>) -> (r: bool)
    ensures
        r <==> all_digits(v@),
{
    let mut i: usize = 0;
    while i < v.len()
        invariant
            i <= v@.len(),
            forall|j: int| 0 <= j < i ==> is_digit(#[trigger] v@[j]),
        decreases v@.len() - i,
    {
        if v[i] < 48 || v[i] > 57 {
            return false;
        }
        i += 1;
    }
    true
}

/// Parse an unsigned decimal number.  Succeeds exactly on non-empty
/// all-digit inputs whose value fits in a `u64`.
pub fn parse_u64(s: &Vec<u8>) -> (r: Option<u64>)
    ensures
        r is Some <==> s@.len() > 0 && all_digits(s@) && dec_val(s@) <= u64::MAX,
        r is Some ==> r->Some_0 == dec_val(s@),
{
    if s.len() == 0 {
        return None;
    }
    let mut acc: u64 = 0;
    let mut i: usize = 0;
    while i < s.len()
        invariant
            i <= s.len(),
            s@.len() > 0,
            all_digits(s@.subrange(0, i as int)),
            acc == dec_val(s@.subrange(0, i as int)),
        decreases s.len() - i,
    {
        let b = s[i];
        if b < 48 || b > 57 {
            return None;
        }
        let d: u64 = (b - 48) as u64;
        if acc > (u64::MAX - d) / 10 {
            proof {
                let pre = s@.subrange(0, i as int + 1);
                assert(pre.drop_last() =~= s@.subrange(0, i as int));
                assert(dec_val(pre) == acc * 10 + d);
                if all_digits(s@) {
                    lemma_dec_val_prefix(s@, i as int + 1);
                }
            }
            return None;
        }
        acc = acc * 10 + d;
        proof {
            let pre = s@.subrange(0, i as int + 1);
            assert(pre.drop_last() =~= s@.subrange(0, i as int));
            assert(all_digits(pre));
        }
        i += 1;
    }
    proof {
        assert(s@.subrange(0, s@.len() as int) =~= s@);
    }
    Some(acc)
}

/// Canonical decimal rendering of an unsigned number: non-empty, digits
/// only, no leading zero, and a value that fits in a `u64`.
pub open spec fn canonical_u64_digits(d: Seq<u8>) -> bool {
    &&& d.len() > 0
    &&& all_digits(d)
    &&& d.len() > 1 ==> d[0] != 48
    &&& dec_val(d) <= u64::MAX
}

/// Canonical decimal rendering of a signed number: a canonical magnitude,
/// negative only with a `-` sign and a non-zero magnitude, fitting in an
/// `i64`.
pub open spec fn canonical_i64_digits(d: Seq<u8>) -> bool {
    if d.len() > 0 && d[0] == 45 {
        let mag = d.subrange(1, d.len() as int);
        &&& mag.len() > 0
        &&& all_digits(mag)
        &&& mag[0] != 48
        &&& dec_val(mag) <= 0x8000_0000_0000_0000
    } else {
        canonical_u64_digits(d) && dec_val(d) <= 0x7fff_ffff_ffff_ffff
    }
}

/// Spec-level meaning of [`parse_i64`]: an optional `-` sign, then digits.
pub open spec fn valid_i64_bytes(s: Seq<u8>) -> bool {
    if s.len() > 0 && s[0] == 45 {
        let mag = s.subrange(1, s.len() as int);
        mag.len() > 0 && all_digits(mag) && dec_val(mag) <= 0x8000_0000_0000_0000
    } else {
        s.len() > 0 && all_digits(s) && dec_val(s) <= 0x7fff_ffff_ffff_ffff
    }
}

/// Numeric value of a signed decimal byte string.
pub open spec fn i64_val(s: Seq<u8>) -> int {
    if s.len() > 0 && s[0] == 45 {
        -(dec_val(s.subrange(1, s.len() as int)) as int)
    } else {
        dec_val(s) as int
    }
}

/// Parse a signed decimal number.  Succeeds exactly on well-formed inputs
/// whose value fits in an `i64`.
pub fn parse_i64(s: &Vec<u8>) -> (r: Option<i64>)
    ensures
        r is Some <==> valid_i64_bytes(s@),
        r is Some ==> r->Some_0 == i64_val(s@),
{
    if s.len() == 0 {
        return None;
    }
    if s[0] == 45 {
        let mut mag: Vec<u8> = Vec::new();
        let mut i: usize = 1;
        while i < s.len()
            invariant
                1 <= i <= s.len(),
                mag@ =~= s@.subrange(1, i as int),
            decreases s.len() - i,
        {
            mag.push(s[i]);
            i += 1;
        }
        proof {
            assert(mag@ =~= s@.subrange(1, s@.len() as int));
        }
        match parse_u64(&mag) {
            Some(v) => {
                if v <= 0x8000_0000_0000_0000 {
                    Some((-(v as i128)) as i64)
                } else {
                    None
                }
            },
            None => None,
        }
    } else {
        match parse_u64(s) {
            Some(v) => {
                if v <= 0x7fff_ffff_ffff_ffff {
                    Some(v as i64)
                } else {
                    None
                }
            },
            None => None,
        }
    }
}

/// Parse a canonical signed decimal rendering: digits with no leading
/// zero, an optional `-` sign on a non-zero magnitude, value in `i64`
/// range.  This is the digit grammar the wire codec accepts.
pub fn parse_i64_canonical(s: &Vec<u8>) -> (r: Option<i64>)
    ensures
        r is Some <==> canonical_i64_digits(s@),
        r is Some ==> r->Some_0 as int == i64_val(s@),
{
    if s.len() == 0 {
        return None;
    }
    if s[0] == 45 {
        let mut mag: Vec<u8> = Vec::new();
        let mut i: usize = 1;
        while i < s.len()
            invariant
                1 <= i <= s.len(),
                s@.len() > 0,
                mag@ =~= s@.subrange(1, i as int),
            decreases s.len() - i,
        {
            mag.push(s[i]);
            i += 1;
        }
        proof {
            assert(mag@ =~= s@.subrange(1, s@.len() as int));
        }
        if mag.len() == 0 {
            return None;
        }
        if mag[0] == 48 {
            return None;
        }
        match parse_u64(&mag) {
            Some(v) => {
                if v <= 0x8000_0000_0000_0000 {
                    Some((-(v as i128)) as i64)
                } else {
                    None
                }
            },
            None => None,
        }
    } else {
        if s.len() > 1 && s[0] == 48 {
            return None;
        }
        match parse_u64(s) {
            Some(v) => {
                if v <= 0x7fff_ffff_ffff_ffff {
                    Some(v as i64)
                } else {
                    None
                }
            },
            None => None,
        }
    }
}

/// Lexicographic order on byte sequences.
pub open spec fn lex_lt(x: Seq<u8>, y: Seq<u8>) -> bool
    decreases x.len() + y.len(),
{
    if x.len() == 0 {
        y.len() > 0
    } else if y.len() == 0 {
        false
    } else if x[0] != y[0] {
        x[0] < y[0]
    } else {
        lex_lt(x.subrange(1, x.len() as int), y.subrange(1, y.len() as int))
    }
}

/// Lexicographic order is irreflexive.
pub proof fn lemma_lex_lt_irrefl(x: Seq<u8>)
    ensures
        !lex_lt(x, x),
    decreases x.len(),
{
    if x.len() > 0 {
        lemma_lex_lt_irrefl(x.subrange(1, x.len() as int));
    }
}

/// Lexicographic order is connected: incomparable sequences are equal.
pub proof fn lemma_lex_lt_connex(x: Seq<u8>, y: Seq<u8>)
    requires
        !lex_lt(x, y),
        !lex_lt(y, x),
    ensures
        x == y,
    decreases x.len() + y.len(),
{
    if x.len() == 0 && y.len() == 0 {
        assert(x =~= y);
    } else if x.len() > 0 && y.len() > 0 && x[0] == y[0] {
        lemma_lex_lt_connex(x.subrange(1, x.len() as int), y.subrange(1, y.len() as int));
        assert(x =~= seq![x[0]] + x.subrange(1, x.len() as int));
        assert(y =~= seq![y[0]] + y.subrange(1, y.len() as int));
    }
}

/// Lexicographic order is transitive.
pub proof fn lemma_lex_lt_trans(x: Seq<u8>, y: Seq<u8>, z: Seq<u8>)
    requires
        lex_lt(x, y),
        lex_lt(y, z),
    ensures
        lex_lt(x, z),
    decreases x.len() + y.len() + z.len(),
{
    if x.len() == 0 {
    } else if y.len() == 0 {
    } else if z.len() == 0 {
    } else if x[0] == y[0] && y[0] == z[0] {
        lemma_lex_lt_trans(
            x.subrange(1, x.len() as int),
            y.subrange(1, y.len() as int),
            z.subrange(1, z.len() as int),
        );
    }
}

/// Compare byte vectors lexicographically.
pub fn lex_less(x: &Vec<u8>, y: &Vec<u8>) -> (r: bool)
    ensures
        r == lex_lt(x@, y@),
{
    proof {
        assert(x@.subrange(0, x@.len() as int) =~= x@);
        assert(y@.subrange(0, y@.len() as int) =~= y@);
    }
    let mut i: usize = 0;
    loop
        invariant
            i <= x@.len(),
            i <= y@.len(),
            lex_lt(x@, y@) == lex_lt(
                x@.subrange(i as int, x@.len() as int),
                y@.subrange(i as int, y@.len() as int),
            ),
        decreases x@.len() - i,
    {
        let ghost xs = x@.subrange(i as int, x@.len() as int);
        let ghost ys = y@.subrange(i as int, y@.len() as int);
        if i >= x.len() {
            proof {
                assert(xs.len() == 0);
            }
            return i < y.len();
        }
        if i >= y.len() {
            proof {
                assert(ys.len() == 0 && xs.len() > 0);
            }
            return false;
        }
        if x[i] != y[i] {
            proof {
                assert(xs[0] == x@[i as int] && ys[0] == y@[i as int]);
            }
            return x[i] < y[i];
        }
        proof {
            assert(xs[0] == ys[0]);
            assert(xs.subrange(1, xs.len() as int) =~= x@.subrange(i + 1, x@.len() as int));
            assert(ys.subrange(1, ys.len() as int) =~= y@.subrange(i + 1, y@.len() as int));
        }
        i += 1;
    }
}

/// The byte-sequence views of a run of byte vectors.
pub open spec fn views_of(s: Seq<Vec<u8>>) -> Seq<Seq<u8>>
    decreases s,
{
    if s.len() == 0 {
        Seq::empty()
    } else {
        seq![s[0]@] + views_of(s.subrange(1, s.len() as int))
    }
}

/// The views are the elements' views, pointwise.
pub proof fn lemma_views_of(s: Seq<Vec<u8>>)
    ensures
        views_of(s).len() == s.len(),
        forall|i: int| 0 <= i < s.len() ==> views_of(s)[i] == (#[trigger] s[i])@,
    decreases s.len(),
{
    if s.len() > 0 {
        let rest = s.subrange(1, s.len() as int);
        lemma_views_of(rest);
        assert forall|i: int| 0 <= i < s.len() implies views_of(s)[i] == (#[trigger] s[i])@ by {
            if i > 0 {
                assert(rest[i - 1] == s[i]);
                assert(views_of(rest)[i - 1] == rest[i - 1]@);
            }
        }
    }
}

/// The decimal rendering of an unsigned number is canonical: digits
/// only, value preserved, no leading zero.
pub proof fn lemma_u64_digits_props(n: nat)
    ensures
        spec_u64_digits(n).len() >= 1,
        all_digits(spec_u64_digits(n)),
        dec_val(spec_u64_digits(n)) == n,
        n < 10 <==> spec_u64_digits(n).len() == 1,
        n > 0 ==> spec_u64_digits(n)[0] != 48,
    decreases n,
{
    let d = spec_u64_digits(n);
    if n < 10 {
        assert(d =~= seq![(48 + n) as u8]);
        assert(d.drop_last() =~= Seq::<u8>::empty());
        assert(dec_val(d) == dec_val(Seq::<u8>::empty()) * 10 + (d.last() - 48) as nat);
    } else {
        lemma_u64_digits_props(n / 10);
        let head = spec_u64_digits(n / 10);
        assert(d == head.push((48 + n % 10) as u8));
        assert(d.drop_last() =~= head);
        assert(d.last() == (48 + n % 10) as u8);
        assert(dec_val(d) == dec_val(head) * 10 + (d.last() - 48) as nat);
        vstd::arithmetic::div_mod::lemma_fundamental_div_mod(n as int, 10);
        assert(dec_val(d) == n);
        assert(d[0] == head[0]);
        assert(n / 10 > 0);
        assert forall|i: int| 0 <= i < d.len() implies is_digit(#[trigger] d[i]) by {
            if i < head.len() {
                assert(d[i] == head[i]);
            }
        }
    }
}

/// The unsigned rendering, as the canonical form the wire accepts.
pub proof fn lemma_u64_digits_canonical(n: nat)
    requires
        n <= u64::MAX,
    ensures
        canonical_u64_digits(spec_u64_digits(n)),
{
    lemma_u64_digits_props(n);
}

/// The signed rendering is canonical and reads back to its value, and
/// every byte of it is a digit or the sign.
pub proof fn lemma_i64_digits_canonical(n: int)
    requires
        i64::MIN <= n <= i64::MAX,
    ensures
        canonical_i64_digits(spec_i64_digits(n)),
        i64_val(spec_i64_digits(n)) == n,
        forall|i: int|
            0 <= i < spec_i64_digits(n).len() ==> 45 <= #[trigger] spec_i64_digits(n)[i] <= 57,
{
    let d = spec_i64_digits(n);
    if n < 0 {
        let mag = spec_u64_digits((-n) as nat);
        lemma_u64_digits_props((-n) as nat);
        assert(d == seq![45u8] + mag);
        assert(d[0] == 45);
        assert(d.subrange(1, d.len() as int) =~= mag);
        assert forall|i: int| 0 <= i < d.len() implies 45 <= #[trigger] d[i] <= 57 by {
            if i > 0 {
                assert(d[i] == mag[i - 1]);
                assert(is_digit(mag[i - 1]));
            }
        }
    } else {
        lemma_u64_digits_props(n as nat);
        assert(d == spec_u64_digits(n as nat));
        assert(d[0] != 45) by {
            assert(is_digit(d[0]));
        }
        assert forall|i: int| 0 <= i < d.len() implies 45 <= #[trigger] d[i] <= 57 by {
            assert(is_digit(d[i]));
        }
    }
}

} // verus!
