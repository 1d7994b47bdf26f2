//! Similarity scores in IEEE 754 single precision, carried as bit patterns.
//!
//! A score is the 32-bit pattern of a single-precision number: one sign bit,
//! eight exponent bits and twenty-three fraction bits. The order of scores is
//! stated over the numbers that the patterns stand for and decided on the
//! patterns themselves.

use vstd::arithmetic::power2::{
    lemma2_to64, lemma_pow2_pos, lemma_pow2_strictly_increases, lemma_pow2_unfold, pow2,
};
use vstd::prelude::*;

verus! {

/// The pattern with only the sign bit set.
pub const SIGN_BIT: u32 = 0x8000_0000;

/// The pattern of positive infinity: every exponent bit set, no fraction bit.
pub const INFINITY_BITS: u32 = 0x7f80_0000;

/// The number of values that the fraction bits can take.
pub const FRACTION_RANGE: u32 = 0x80_0000;

/// The pattern without its sign bit.
pub open spec fn magnitude(bits: u32) -> nat {
    (bits % SIGN_BIT) as nat
}

/// Whether the sign bit is set.
pub open spec fn is_negative(bits: u32) -> bool {
    bits >= SIGN_BIT
}

/// Whether the pattern is not a number: every exponent bit set and some
/// fraction bit too.
pub open spec fn is_nan(bits: u32) -> bool {
    magnitude(bits) > INFINITY_BITS
}

/// The absolute value that a magnitude stands for, in units of 2^-149.
///
/// With exponent field `e` and fraction field `f`, a subnormal (`e == 0`) is
/// `f` units and a normal number is `(2^23 + f) * 2^(e - 1)` units. The
/// formula places infinity beyond every finite value.
pub open spec fn magnitude_value(magnitude: nat) -> nat {
    let exponent = magnitude / FRACTION_RANGE as nat;
    let fraction = magnitude % FRACTION_RANGE as nat;
    if exponent == 0 {
        fraction
    } else {
        (FRACTION_RANGE as nat + fraction) * pow2((exponent - 1) as nat)
    }
}

/// The value that a pattern stands for, in units of 2^-149. Both zeros have
/// the value 0.
pub open spec fn scaled_value(bits: u32) -> int {
    if is_negative(bits) {
        -(magnitude_value(magnitude(bits)) as int)
    } else {
        magnitude_value(magnitude(bits)) as int
    }
}

/// Whether `score` is strictly greater than `threshold` as numbers. Nothing
/// exceeds, or is exceeded by, a pattern that is not a number.
pub open spec fn exceeds(score: u32, threshold: u32) -> bool {
    &&& !is_nan(score)
    &&& !is_nan(threshold)
    &&& scaled_value(score) > scaled_value(threshold)
}

/// A magnitude with exponent field `e` stands for at least `2^23 * 2^(e - 1)`
/// units when `e > 0`, and for less than `2^23 * 2^e` units in any case.
proof fn lemma_magnitude_value_bounds(magnitude: nat)
    ensures
        magnitude / FRACTION_RANGE as nat > 0 ==> magnitude_value(magnitude) >= FRACTION_RANGE
            * pow2((magnitude / FRACTION_RANGE as nat - 1) as nat),
        magnitude_value(magnitude) < FRACTION_RANGE * pow2(magnitude / FRACTION_RANGE as nat),
{
    let exponent = magnitude / FRACTION_RANGE as nat;
    let fraction = magnitude % FRACTION_RANGE as nat;
    let range = FRACTION_RANGE as nat;
    if exponent == 0 {
        lemma2_to64();
    } else {
        let low = pow2((exponent - 1) as nat);
        lemma_pow2_pos((exponent - 1) as nat);
        lemma_pow2_unfold(exponent);
        assert(pow2(exponent) == 2 * low);
        assert((range + fraction) * low >= range * low) by (nonlinear_arith)
            requires
                low > 0,
                fraction >= 0,
        ;
        assert((range + fraction) * low < range * (2 * low)) by (nonlinear_arith)
            requires
                low > 0,
                fraction < range,
        ;
    }
}

/// A greater magnitude stands for a greater absolute value.
pub proof fn lemma_magnitude_value_increases(low: nat, high: nat)
    requires
        low < high,
    ensures
        magnitude_value(low) < magnitude_value(high),
{
    let range = FRACTION_RANGE as nat;
    let e1 = low / range;
    let e2 = high / range;
    let f1 = low % range;
    let f2 = high % range;
    assert(e1 <= e2);
    if e1 == e2 {
        assert(f1 < f2);
        if e1 > 0 {
            let p = pow2((e1 - 1) as nat);
            lemma_pow2_pos((e1 - 1) as nat);
            assert((range + f1) * p < (range + f2) * p) by (nonlinear_arith)
                requires
                    p > 0,
                    f1 < f2,
            ;
        }
    } else {
        lemma_magnitude_value_bounds(low);
        lemma_magnitude_value_bounds(high);
        let p1 = pow2(e1);
        let p2 = pow2((e2 - 1) as nat);
        if e1 < e2 - 1 {
            lemma_pow2_strictly_increases(e1, (e2 - 1) as nat);
        }
        assert(p1 <= p2);
        assert(range * p1 <= range * p2) by (nonlinear_arith)
            requires
                p1 <= p2,
        ;
    }
}

/// Decides whether `score` is strictly greater than `threshold`.
pub fn score_exceeds(score: u32, threshold: u32) -> (above: bool)
    ensures
        above == exceeds(score, threshold),
{
    let score_magnitude: u32 = score % SIGN_BIT;
    let threshold_magnitude: u32 = threshold % SIGN_BIT;
    if score_magnitude > INFINITY_BITS || threshold_magnitude > INFINITY_BITS {
        return false;
    }
    proof {
        let s = score_magnitude as nat;
        let t = threshold_magnitude as nat;
        if s < t {
            lemma_magnitude_value_increases(s, t);
        }
        if t < s {
            lemma_magnitude_value_increases(t, s);
        }
        if 0 < s {
            lemma_magnitude_value_increases(0, s);
        }
        if 0 < t {
            lemma_magnitude_value_increases(0, t);
        }
        assert(magnitude_value(0) == 0);
    }
    if score >= SIGN_BIT {
        threshold >= SIGN_BIT && score_magnitude < threshold_magnitude
    } else if threshold >= SIGN_BIT {
        score_magnitude > 0 || threshold_magnitude > 0
    } else {
        score_magnitude > threshold_magnitude
    }
}

} // verus!
