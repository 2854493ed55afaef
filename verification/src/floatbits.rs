//! Float values as IEEE 754 bit patterns.
//!
//! The library carries every float observation as its `u64` bit pattern;
//! the verified code never touches a float value itself. Widening an
//! integer to a float — needed when a selection unifies integer and
//! float columns — is the one float computation the library performs,
//! and it is delegated to `serde_json`'s number conversion behind a
//! named, trusted operation. The classifications the library needs
//! (finite or not) are plain bit predicates, decided without trust.

use vstd::prelude::*;

verus! {

/// The bit pattern is finite: exponent not all ones (neither an
/// infinity nor a NaN). Division by a zero denominator yields a
/// non-finite pattern, which callers of the ratio analysis filter out.
pub open spec fn f64_bits_is_finite(b: u64) -> bool {
    (b >> 52) & 0x7ff != 0x7ff
}

/// Decides `f64_bits_is_finite`.
pub fn is_finite_bits(b: u64) -> (r: bool)
    ensures
        r == f64_bits_is_finite(b),
{
    (b >> 52) & 0x7ff != 0x7ff
}

/// What the host computes when it widens an integer to a float: the bit
/// pattern of the nearest double to `v` (exact whenever the magnitude
/// stays within 53 bits).
pub uninterp spec fn f64_bits_of_i64(v: i64) -> u64;

/// Relies on `serde_json::Number`: a number built with `From<i64>` is
/// integer-backed, so `as_f64` is always `Some`, holding exactly the
/// integer widened by the host's round-to-nearest conversion — a
/// deterministic function of `v` alone.
#[verifier::external_body]
pub fn widen_i64(v: i64) -> (r: u64)
    ensures
        r == f64_bits_of_i64(v),
{
    serde_json::Number::from(v).as_f64().map(|x| x.to_bits()).unwrap_or(0)
}

} // verus!
