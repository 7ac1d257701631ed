//! Real quantities as IEEE 754 binary64 bit patterns.
//!
//! Coordinates, distances and the clustering radius cross the library's
//! boundary as the 64 bits of a double: one sign bit, eleven exponent bits,
//! fifty-two fraction bits. The functions below read such a pattern with
//! integer arithmetic only.

use vstd::prelude::*;

verus! {

/// The pattern whose only set bit is the sign: negative zero.
pub const SIGN_BIT: u64 = 0x8000_0000_0000_0000;

/// The pattern of positive infinity: every exponent bit set, no fraction bit.
pub const INFINITY: u64 = 0x7ff0_0000_0000_0000;

/// The pattern without its sign bit.
pub open spec fn magnitude(bits: u64) -> int {
    if bits >= SIGN_BIT {
        bits - SIGN_BIT
    } else {
        bits as int
    }
}

/// Not-a-number: the exponent is all ones and the fraction is not zero.
pub open spec fn spec_is_nan(bits: u64) -> bool {
    magnitude(bits) > INFINITY
}

/// Positive or negative zero.
pub open spec fn spec_is_zero(bits: u64) -> bool {
    magnitude(bits) == 0
}

/// Where a pattern that is no NaN stands on the number line: patterns of one
/// sign are ordered as their magnitudes, and both zeros stand at 0.
pub open spec fn ordinal(bits: u64) -> int {
    if bits >= SIGN_BIT {
        -magnitude(bits)
    } else {
        magnitude(bits)
    }
}

/// `a <= b` as doubles compare: false as soon as either side is NaN.
pub open spec fn spec_le(a: u64, b: u64) -> bool {
    !spec_is_nan(a) && !spec_is_nan(b) && ordinal(a) <= ordinal(b)
}

/// `0 < a` as doubles compare: a number above zero, infinity included.
pub open spec fn spec_is_positive(bits: u64) -> bool {
    0 < bits <= INFINITY
}

/// Whether the pattern is a NaN.
#[verifier::when_used_as_spec(spec_is_nan)]
pub fn is_nan(bits: u64) -> (r: bool)
    ensures
        r == spec_is_nan(bits),
{
    if bits >= SIGN_BIT {
        bits - SIGN_BIT > INFINITY
    } else {
        bits > INFINITY
    }
}

/// Whether the pattern is one of the two zeros.
#[verifier::when_used_as_spec(spec_is_zero)]
pub fn is_zero(bits: u64) -> (r: bool)
    ensures
        r == spec_is_zero(bits),
{
    bits == 0 || bits == SIGN_BIT
}

/// Whether `a <= b` holds of the doubles that the two patterns stand for.
#[verifier::when_used_as_spec(spec_le)]
pub fn le(a: u64, b: u64) -> (r: bool)
    ensures
        r == spec_le(a, b),
{
    if is_nan(a) || is_nan(b) {
        false
    } else if a >= SIGN_BIT {
        // a <= 0: below every b >= 0, and below a negative b of smaller magnitude
        b < SIGN_BIT || b <= a
    } else {
        // a >= 0: only zero is below a b <= 0
        if b >= SIGN_BIT {
            a == 0 && b == SIGN_BIT
        } else {
            a <= b
        }
    }
}

/// Whether the pattern stands for a number above zero.
#[verifier::when_used_as_spec(spec_is_positive)]
pub fn is_positive(bits: u64) -> (r: bool)
    ensures
        r == spec_is_positive(bits),
{
    0 < bits && bits <= INFINITY
}

/// The comparison is inclusive: a number is never above itself.
pub proof fn lemma_le_reflexive(a: u64)
    requires
        !is_nan(a),
    ensures
        le(a, a),
{
}

/// Among numbers the comparison is total.
pub proof fn lemma_le_total(a: u64, b: u64)
    requires
        !is_nan(a),
        !is_nan(b),
    ensures
        le(a, b) || le(b, a),
{
}

/// The comparison is transitive.
pub proof fn lemma_le_transitive(a: u64, b: u64, c: u64)
    requires
        le(a, b),
        le(b, c),
    ensures
        le(a, c),
{
}

} // verus!
