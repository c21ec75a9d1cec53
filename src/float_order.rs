//! Comparison of IEEE-754 binary64 values through their bit patterns.
//!
//! A value is handled as its 64 raw bits: bit 63 is the sign, the other
//! 63 bits are the magnitude (exponent and fraction), and for values of one
//! sign a larger magnitude is a larger absolute value. A pattern is NaN when
//! its magnitude lies above that of infinity.
//!
//! `order_key` maps every non-NaN pattern to an unsigned integer that orders
//! exactly as the numbers do (the two zeros share one key), so the decisions
//! of the search can be taken on integers.
use vstd::prelude::*;

verus! {

/// The sign bit of a binary64 pattern.
pub const SIGN_BIT: u64 = 0x8000_0000_0000_0000;

/// Magnitude of positive and negative infinity.
pub const INFINITY_MAGNITUDE: u64 = 0x7FF0_0000_0000_0000;

/// Bits of positive infinity.
pub const POSITIVE_INFINITY_BITS: u64 = 0x7FF0_0000_0000_0000;

/// Bits of negative infinity.
pub const NEGATIVE_INFINITY_BITS: u64 = 0xFFF0_0000_0000_0000;

/// The sign bit is set.
pub open spec fn is_negative(b: u64) -> bool {
    b >= SIGN_BIT
}

/// The pattern without its sign bit.
pub open spec fn magnitude(b: u64) -> u64 {
    if is_negative(b) {
        (b - SIGN_BIT) as u64
    } else {
        b
    }
}

/// Not a number: exponent all ones with a non-zero fraction.
pub open spec fn is_nan(b: u64) -> bool {
    magnitude(b) > INFINITY_MAGNITUDE
}

/// Neither infinite nor NaN.
pub open spec fn is_finite(b: u64) -> bool {
    magnitude(b) < INFINITY_MAGNITUDE
}

/// Positive or negative zero.
pub open spec fn is_zero(b: u64) -> bool {
    magnitude(b) == 0
}

/// `a < b` on two non-NaN values.
pub open spec fn float_lt(a: u64, b: u64) -> bool {
    if !is_negative(a) && !is_negative(b) {
        magnitude(a) < magnitude(b)
    } else if is_negative(a) && is_negative(b) {
        magnitude(a) > magnitude(b)
    } else if is_negative(a) {
        !(is_zero(a) && is_zero(b))
    } else {
        false
    }
}

/// `a == b` on two non-NaN values: equal patterns, or the two zeros.
pub open spec fn float_eq(a: u64, b: u64) -> bool {
    a == b || (is_zero(a) && is_zero(b))
}

/// The key of a non-NaN pattern, as an integer.
pub open spec fn key_value(b: u64) -> int {
    if !is_negative(b) || is_zero(b) {
        SIGN_BIT + magnitude(b)
    } else {
        SIGN_BIT - 1 - magnitude(b)
    }
}

/// The order key of a pattern: none for NaN, which compares with nothing.
pub open spec fn key_of(b: u64) -> Option<u64> {
    if is_nan(b) {
        None
    } else {
        Some(key_value(b) as u64)
    }
}

/// `a < b` on keys; false as soon as either side is NaN.
pub open spec fn key_lt(a: Option<u64>, b: Option<u64>) -> bool {
    match (a, b) {
        (Some(x), Some(y)) => x < y,
        _ => false,
    }
}

/// Order key of the value with the given bits.
pub fn order_key(bits: u64) -> (r: Option<u64>)
    ensures
        r == key_of(bits),
{
    if bits >= SIGN_BIT {
        let m: u64 = bits - SIGN_BIT;
        if m > INFINITY_MAGNITUDE {
            None
        } else if m == 0 {
            Some(SIGN_BIT)
        } else {
            Some(SIGN_BIT - 1 - m)
        }
    } else if bits > INFINITY_MAGNITUDE {
        None
    } else {
        Some(SIGN_BIT + bits)
    }
}

/// `a < b` on two values given by their bits; false where either is NaN.
pub fn less_than(a: u64, b: u64) -> (r: bool)
    ensures
        r == (!is_nan(a) && !is_nan(b) && float_lt(a, b)),
{
    let ka = order_key(a);
    let kb = order_key(b);
    proof {
        if !is_nan(a) && !is_nan(b) {
            lemma_key_orders_like_value(a, b);
        }
    }
    match (ka, kb) {
        (Some(x), Some(y)) => x < y,
        _ => false,
    }
}

/// Keys order non-NaN values exactly as the numbers they stand for.
pub proof fn lemma_key_orders_like_value(a: u64, b: u64)
    requires
        !is_nan(a),
        !is_nan(b),
    ensures
        key_of(a) is Some,
        key_of(b) is Some,
        key_lt(key_of(a), key_of(b)) <==> float_lt(a, b),
        key_of(a) == key_of(b) <==> float_eq(a, b),
{
}

} // verus!
