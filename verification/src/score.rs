//! Ordering of similarity scores.
//!
//! A score is the `u64` bit pattern of an IEEE 754 double-precision number.
//! `score_key` maps a bit pattern to an integer whose usual order coincides
//! with the `<` order of the numbers the patterns denote: non-negative
//! numbers map to their magnitude bits, negative numbers to the negated
//! magnitude bits (so `-0.0` and `+0.0` share the key `0`), and every NaN
//! pattern maps to a key below every number.  All ranking, tie-breaking and
//! threshold decisions in this crate are taken in this order, which is total,
//! so rankings are deterministic for identical inputs.

use vstd::prelude::*;

verus! {

/// Bit pattern of the IEEE double `0.6`, the analogy acceptance threshold.
pub const SIM_THRESHOLD_BITS: u64 = 0x3FE3333333333333;

/// Bit pattern of the IEEE double `+0.0`.
pub const ZERO_BITS: u64 = 0;

/// A bit pattern denotes NaN when its exponent field is all ones and its
/// fraction field is not zero.
pub open spec fn is_nan_bits(x: u64) -> bool {
    (x >> 52) & 0x7FF == 0x7FF && x & 0xF_FFFF_FFFF_FFFF != 0
}

/// The magnitude bits: everything but the sign bit.
pub open spec fn magnitude_bits(x: u64) -> int {
    (x & 0x7FFF_FFFF_FFFF_FFFF) as int
}

/// The integer key a score is ordered by.
pub open spec fn score_key(x: u64) -> int {
    if is_nan_bits(x) {
        -0x8000_0000_0000_0000
    } else if x >> 63 == 1u64 {
        -magnitude_bits(x)
    } else {
        magnitude_bits(x)
    }
}

pub fn score_is_nan(x: u64) -> (r: bool)
    ensures
        r == is_nan_bits(x),
{
    (x >> 52) & 0x7FF == 0x7FF && x & 0xF_FFFF_FFFF_FFFF != 0
}

proof fn lemma_magnitude_range(x: u64)
    ensures
        0 <= magnitude_bits(x) <= 0x7FFF_FFFF_FFFF_FFFF,
{
    assert(x & 0x7FFF_FFFF_FFFF_FFFF <= 0x7FFF_FFFF_FFFF_FFFF) by (bit_vector);
}

/// `+0.0` has the key `0`.
pub proof fn lemma_zero_key()
    ensures
        score_key(ZERO_BITS) == 0,
{
    assert((0u64 >> 52) & 0x7FF != 0x7FF) by (bit_vector);
    assert(0u64 >> 63 != 1u64) by (bit_vector);
    assert(0u64 & 0x7FFF_FFFF_FFFF_FFFF == 0u64) by (bit_vector);
}

/// Whether the score `a` is strictly below the score `b`.
pub fn score_lt(a: u64, b: u64) -> (r: bool)
    ensures
        r == (score_key(a) < score_key(b)),
{
    proof {
        lemma_magnitude_range(a);
        lemma_magnitude_range(b);
    }
    let na = score_is_nan(a);
    let nb = score_is_nan(b);
    if na {
        !nb
    } else if nb {
        false
    } else {
        let sa = a >> 63;
        let sb = b >> 63;
        let ma = a & 0x7FFF_FFFF_FFFF_FFFF;
        let mb = b & 0x7FFF_FFFF_FFFF_FFFF;
        if sa == 1 && sb == 1 {
            mb < ma
        } else if sa == 1 {
            ma != 0 || mb != 0
        } else if sb == 1 {
            false
        } else {
            ma < mb
        }
    }
}

/// Whether the score `a` is at or below the score `b`.
pub fn score_le(a: u64, b: u64) -> (r: bool)
    ensures
        r == (score_key(a) <= score_key(b)),
{
    !score_lt(b, a)
}

} // verus!
