//! Reading IEEE-754 binary64 values from their bit patterns.
//!
//! A pattern `b` has its sign in the top bit and the magnitude `b % 2^63`
//! below it. Among patterns that are not NaN, a larger magnitude means a larger
//! absolute value, which is what every comparison below rests on.
use vstd::prelude::*;

verus! {

/// The sign bit of a binary64 pattern.
pub const SIGN_BIT: u64 = 0x8000_0000_0000_0000;

/// The pattern of positive infinity; a magnitude above it is a NaN.
pub const INFINITY_BITS: u64 = 0x7FF0_0000_0000_0000;

/// The magnitude of a pattern: the pattern of its absolute value.
pub open spec fn magnitude(b: u64) -> u64 {
    b % SIGN_BIT
}

/// The pattern has its sign bit set (negative values and `-0.0`).
pub open spec fn sign_set(b: u64) -> bool {
    b >= SIGN_BIT
}

/// The pattern is a NaN.
pub open spec fn is_nan(b: u64) -> bool {
    magnitude(b) > INFINITY_BITS
}

/// A key that orders patterns that are not NaN as their values are ordered,
/// with `-0.0` just below `+0.0`.
pub open spec fn order_key(b: u64) -> int {
    if sign_set(b) {
        SIGN_BIT - 1 - magnitude(b)
    } else {
        SIGN_BIT + magnitude(b)
    }
}

/// Both patterns are zeros, of either sign.
pub open spec fn both_zero(a: u64, b: u64) -> bool {
    magnitude(a) == 0 && magnitude(b) == 0
}

/// The value of `a` is less than the value of `b` (`a < b` on `f64`).
pub open spec fn value_lt(a: u64, b: u64) -> bool {
    &&& !is_nan(a)
    &&& !is_nan(b)
    &&& !both_zero(a, b)
    &&& order_key(a) < order_key(b)
}

/// What `f64::max` gives: the larger value, ignoring a NaN argument.
pub open spec fn spec_max(a: u64, b: u64) -> u64 {
    if is_nan(a) {
        b
    } else if is_nan(b) {
        a
    } else if value_lt(a, b) {
        b
    } else {
        a
    }
}

/// The absolute value of `a` is less than the non-negative, non-NaN value whose
/// pattern is `bound` (`a.abs() < bound` on `f64`).
pub open spec fn abs_lt(a: u64, bound: u64) -> bool {
    !is_nan(a) && magnitude(a) < bound
}

/// Pattern of `f64::max` of the two values.
pub fn max_bits(a: u64, b: u64) -> (r: u64)
    ensures
        r == spec_max(a, b),
        r == a || r == b,
        is_nan(a) ==> r == b,
        is_nan(b) && !is_nan(a) ==> r == a,
        !is_nan(a) && !is_nan(b) ==> !value_lt(r, a) && !value_lt(r, b),
{
    proof {
        lemma_max_is_upper_bound(a, b);
    }
    let mag_a = a % SIGN_BIT;
    let mag_b = b % SIGN_BIT;
    if mag_a > INFINITY_BITS {
        b
    } else if mag_b > INFINITY_BITS {
        a
    } else if mag_a == 0 && mag_b == 0 {
        a
    } else {
        let a_neg = a >= SIGN_BIT;
        let b_neg = b >= SIGN_BIT;
        let b_larger = if a_neg && b_neg {
            mag_b < mag_a
        } else if a_neg {
            true
        } else if b_neg {
            false
        } else {
            mag_a < mag_b
        };
        if b_larger {
            b
        } else {
            a
        }
    }
}

/// Whether the absolute value of `a` is below the non-negative value whose
/// pattern is `bound`.
pub fn abs_below(a: u64, bound: u64) -> (r: bool)
    requires
        bound <= INFINITY_BITS,
    ensures
        r == abs_lt(a, bound),
        a < SIGN_BIT ==> r == (a < bound),
        a >= SIGN_BIT ==> r == (a - SIGN_BIT < bound),
{
    a % SIGN_BIT < bound
}

/// `f64::max` returns one of its arguments; it returns the other when one is
/// NaN; and where neither is NaN its result is no smaller than either.
pub proof fn lemma_max_is_upper_bound(a: u64, b: u64)
    ensures
        spec_max(a, b) == a || spec_max(a, b) == b,
        is_nan(a) ==> spec_max(a, b) == b,
        is_nan(b) && !is_nan(a) ==> spec_max(a, b) == a,
        !is_nan(a) && !is_nan(b) ==> !value_lt(spec_max(a, b), a) && !value_lt(
            spec_max(a, b),
            b,
        ),
{
}

/// `|x| < bound` ignores the sign of `x`: a pattern and its negation (the
/// same pattern with the sign bit flipped) compare alike, a non-negative
/// pattern compares as itself, and a NaN is never below the bound.
pub proof fn lemma_abs_lt(a: u64, bound: u64)
    requires
        bound <= INFINITY_BITS,
    ensures
        a < SIGN_BIT ==> (abs_lt(a, bound) <==> a < bound),
        a < SIGN_BIT ==> (abs_lt(a, bound) <==> abs_lt((a + SIGN_BIT) as u64, bound)),
        is_nan(a) ==> !abs_lt(a, bound),
{
}

} // verus!
