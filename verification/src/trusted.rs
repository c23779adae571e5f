//! The calls into outside crates, each behind one trusted wrapper whose
//! contract states what that crate's code promises.  Everything else in
//! the library is verified against these contracts.

use vstd::prelude::*;

verus! {

/// The SHA-256 digest of a byte string.  The digest depends on the
/// input alone; its definition lives in the sha2 crate.
pub uninterp spec fn sha256_of(data: Seq<u8>) -> Seq<u8>;

/// Relies on sha2's `Sha256`: a 32-byte digest, a function of the input
/// bytes alone.
#[verifier::external_body]
pub fn sha256(data: &Vec<u8>) -> (r: Vec<u8>)
    ensures
        r@ == sha256_of(data@),
        r@.len() == 32,
{
    let d = <sha2::Sha256 as sha2::Digest>::digest(data.as_slice());
    d.as_slice().to_vec()
}

/// One lowercase hex digit.
pub open spec fn hex_digit(n: u8) -> u8 {
    if n < 10 {
        (48 + n) as u8
    } else {
        (87 + n) as u8
    }
}

/// The lowercase hex rendering: two digits for each byte, in order.
pub open spec fn spec_hex_lower(s: Seq<u8>) -> Seq<u8>
    decreases s.len(),
{
    if s.len() == 0 {
        Seq::empty()
    } else {
        seq![hex_digit(s[0] / 16), hex_digit(s[0] % 16)] + spec_hex_lower(
            s.subrange(1, s.len() as int),
        )
    }
}

/// Relies on hex::encode: each input byte becomes its two lowercase hex
/// digits, high nibble first.
#[verifier::external_body]
pub fn hex_lower(data: &Vec<u8>) -> (r: Vec<u8>)
    ensures
        r@ == spec_hex_lower(data@),
{
    hex::encode(data).into_bytes()
}

/// An ASCII letter or digit.
pub open spec fn is_alnum(b: u8) -> bool {
    (48 <= b <= 57) || (65 <= b <= 90) || (97 <= b <= 122)
}

/// Relies on rand's `Alphanumeric` distribution: every sample is an
/// ASCII letter or digit.  Nothing more is promised of a random value.
#[verifier::external_body]
pub fn random_alnum() -> (r: u8)
    ensures
        is_alnum(r),
{
    rand::RngExt::sample(&mut rand::rng(), rand::distr::Alphanumeric)
}

/// Relies on std's `SystemTime::now` and `duration_since` for the wall
/// clock in milliseconds since the epoch; a clock set before the epoch
/// reads as zero, and nothing more is promised of the value.  (These
/// two std calls cannot panic; their documentation routes a pre-epoch
/// clock through the `Err` arm handled here.)
#[verifier::external_body]
fn wall_clock_raw() -> (t: u64) {
    match std::time::SystemTime::now().duration_since(std::time::UNIX_EPOCH) {
        Ok(d) => {
            let ms = d.as_millis();
            if ms > u64::MAX as u128 {
                u64::MAX
            } else {
                ms as u64
            }
        },
        Err(_) => 0,
    }
}

/// The wall clock in milliseconds since the epoch.
pub fn wall_clock_ms() -> (t: u64) {
    wall_clock_raw()
}

/// Relies on hex::decode of the canned empty-snapshot image sent after
/// `FULLRESYNC`: its 176 hex digits decode to 88 bytes.  Only the
/// length is promised; the image's content travels untracked, which is
/// all the `$<len>` framing needs.
#[verifier::external_body]
pub fn empty_rdb_payload() -> (r: Vec<u8>)
    ensures
        r@.len() == 88,
{
    hex::decode(
        "524544495330303131fa0972656469732d76657205372e322e30fa0a72656469732d62697473c040fa056374696d65c26d08bc65fa08757365642d6d656dc2b0c41000fa08616f662d62617365c000fff06e3bfec0ff5aa2",
    ).unwrap_or_default()
}

} // verus!
