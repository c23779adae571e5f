//! The exact-decimal side of the geographic commands: coordinate range
//! validation and the invalid-pair error, with coordinates rendered to
//! six decimal places.  The geohash encoding and the distance formula
//! are floating-point work that lives with the caller.

use vstd::prelude::*;

use crate::bytesutil::u64_to_dec;
use crate::resp::RespData;
use crate::resp::RespValue;
use crate::resp::resp_view;
use crate::score::Score;
use crate::score::frac_lt;
use crate::score::frac_less;
use crate::zset::score_view;
use vstd::string::StringSliceAdditionalSpecFns;

verus! {

/// The latitude magnitude bound, `85.05112878`, as fraction digits.
pub open spec fn lat_bound_frac() -> Seq<u8> {
    seq![0u8, 5u8, 1u8, 1u8, 2u8, 8u8, 7u8, 8u8]
}

/// Is the longitude within `[-180, 180]`?
pub open spec fn spec_lon_in_range(s: Score) -> bool {
    s.int_part < 180 || (s.int_part == 180 && s.frac@.len() == 0)
}

/// Is the latitude within `[-85.05112878, 85.05112878]`?
pub open spec fn spec_lat_in_range(s: Score) -> bool {
    s.int_part < 85 || (s.int_part == 85 && (frac_lt(s.frac@, lat_bound_frac()) || s.frac@
        == lat_bound_frac()))
}

/// Check the longitude bound.
pub fn lon_in_range(s: &Score) -> (r: bool)
    ensures
        r == spec_lon_in_range(*s),
{
    s.int_part < 180 || (s.int_part == 180 && s.frac.len() == 0)
}

/// Check the latitude bound.
pub fn lat_in_range(s: &Score) -> (r: bool)
    ensures
        r == spec_lat_in_range(*s),
{
    if s.int_part < 85 {
        true
    } else if s.int_part == 85 {
        let mut bound: Vec<u8> = Vec::new();
        bound.push(0);
        bound.push(5);
        bound.push(1);
        bound.push(1);
        bound.push(2);
        bound.push(8);
        bound.push(7);
        bound.push(8);
        proof {
            assert(bound@ =~= lat_bound_frac());
        }
        frac_less(&s.frac, &bound) || crate::bytesutil::bytes_eq(&s.frac, &bound)
    } else {
        false
    }
}

/// A coordinate rendered to exactly six decimal places: the fraction is
/// truncated or zero-padded to six digits.
pub open spec fn spec_fmt6(sv: (bool, u64, Seq<u8>)) -> Seq<u8> {
    let sign: Seq<u8> = if sv.0 {
        seq![45u8]
    } else {
        Seq::empty()
    };
    let frac6 = Seq::new(6, |i: int| if 0 <= i < sv.2.len() {
        (sv.2[i] + 48) as u8
    } else {
        48u8
    });
    sign + crate::bytesutil::spec_u64_digits(sv.1 as nat) + seq![46u8] + frac6
}

/// Render a coordinate to six decimal places.
pub fn fmt6(s: &Score) -> (r: Vec<u8>)
    requires
        crate::score::score_wf(*s),
    ensures
        r@ == spec_fmt6(score_view(*s)),
{
    let mut out: Vec<u8> = Vec::new();
    if s.neg {
        out.push(45);
    }
    let mut digits = u64_to_dec(s.int_part);
    out.append(&mut digits);
    out.push(46);
    let ghost base = out@;
    let mut i: usize = 0;
    while i < 6
        invariant
            i <= 6,
            forall|j: int| 0 <= j < s.frac@.len() ==> #[trigger] s.frac@[j] < 10,
            out@.len() == base.len() + i,
            out@.subrange(0, base.len() as int) == base,
            forall|j: int|
                0 <= j < i ==> out@[base.len() + j] == (if j < s.frac@.len() {
                    (s.frac@[j] + 48) as u8
                } else {
                    48u8
                }),
        decreases 6 - i,
    {
        if i < s.frac.len() {
            out.push(s.frac[i] + 48);
        } else {
            out.push(48);
        }
        proof {
            assert(out@.subrange(0, base.len() as int) =~= base);
        }
        i += 1;
    }
    proof {
        let sign: Seq<u8> = if s.neg {
            seq![45u8]
        } else {
            Seq::empty()
        };
        assert(base =~= sign + crate::bytesutil::spec_u64_digits(s.int_part as nat)
            + seq![46u8]);
        assert forall|j: int| 0 <= j < out@.len() implies out@[j] == spec_fmt6(
            score_view(*s),
        )[j] by {
            if j < base.len() {
                assert(out@[j] == out@.subrange(0, base.len() as int)[j]);
                assert(out@[j] == base[j]);
            } else {
                assert(out@[j] == (if j - base.len() < s.frac@.len() {
                    (s.frac@[j - base.len()] + 48) as u8
                } else {
                    48u8
                }));
            }
        }
        assert(out@ =~= spec_fmt6(score_view(*s)));
    }
    out
}

/// The invalid-pair error text for a coordinate pair.
pub open spec fn bad_coords_msg(lon: (bool, u64, Seq<u8>), lat: (bool, u64, Seq<u8>)) -> Seq<u8> {
    "ERR invalid longitude,latitude pair ".spec_bytes() + spec_fmt6(lon) + seq![44u8] + spec_fmt6(
        lat,
    )
}

/// The `-ERR invalid longitude,latitude pair <lon>,<lat>` reply.
pub fn bad_coords_reply(lon: &Score, lat: &Score) -> (r: RespValue)
    requires
        crate::score::score_wf(*lon),
        crate::score::score_wf(*lat),
    ensures
        resp_view(r) == RespData::SimpleError(
            bad_coords_msg(score_view(*lon), score_view(*lat)),
        ),
{
    let mut msg = crate::bytesutil::str_bytes("ERR invalid longitude,latitude pair ");
    let mut a = fmt6(lon);
    msg.append(&mut a);
    msg.push(44);
    let mut b = fmt6(lat);
    msg.append(&mut b);
    proof {
        assert(msg@ =~= bad_coords_msg(score_view(*lon), score_view(*lat)));
    }
    RespValue::SimpleError(msg)
}

} // verus!
