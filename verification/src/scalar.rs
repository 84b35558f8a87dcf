//! Real numbers as the library holds them: the sixty-four bits of an IEEE 754
//! double, in a `u64`.
//!
//! The library moves these values around and orders them; it computes
//! nothing with them. The top bit is the sign, the bits below it the
//! magnitude. A magnitude above that of infinity is not a number.

use vstd::prelude::*;

verus! {

/// Positive zero.
pub const ZERO: u64 = 0;

/// One.
pub const ONE: u64 = 0x3ff0_0000_0000_0000;

/// The sign bit, which is also negative zero.
pub const SIGN: u64 = 0x8000_0000_0000_0000;

/// Positive infinity, the largest magnitude that is a number.
pub const INFINITY: u64 = 0x7ff0_0000_0000_0000;

/// The bits of `x` below the sign.
pub open spec fn magnitude(x: u64) -> int {
    if x >= SIGN {
        x - SIGN
    } else {
        x as int
    }
}

/// Whether `x` is not a number.
pub open spec fn is_nan(x: u64) -> bool {
    magnitude(x) > INFINITY
}

/// The place of a number in the order of the reals: the magnitude, counted
/// downwards from zero where the sign is set. Both zeros have place 0.
pub open spec fn rank(x: u64) -> int {
    if x >= SIGN {
        -magnitude(x)
    } else {
        magnitude(x)
    }
}

/// Whether `a > b` as doubles: both are numbers, and `a` comes later in the
/// order of the reals.
pub open spec fn greater(a: u64, b: u64) -> bool {
    !is_nan(a) && !is_nan(b) && rank(a) > rank(b)
}

/// Whether `a == b` as doubles: both are numbers, at the same place in the
/// order of the reals.
pub open spec fn equal(a: u64, b: u64) -> bool {
    !is_nan(a) && !is_nan(b) && rank(a) == rank(b)
}

/// Whether `a > b` as doubles.
pub fn gt(a: u64, b: u64) -> (r: bool)
    ensures
        r == greater(a, b),
{
    let a_negative = a >= SIGN;
    let b_negative = b >= SIGN;
    let a_magnitude: u64 = if a_negative {
        a - SIGN
    } else {
        a
    };
    let b_magnitude: u64 = if b_negative {
        b - SIGN
    } else {
        b
    };
    if a_magnitude > INFINITY || b_magnitude > INFINITY {
        false
    } else if a_negative {
        b_negative && a_magnitude < b_magnitude
    } else if b_negative {
        a_magnitude > 0 || b_magnitude > 0
    } else {
        a_magnitude > b_magnitude
    }
}

/// No value is greater than itself, and of two values at most one is greater
/// than the other.
pub proof fn greater_is_strict(a: u64, b: u64)
    ensures
        !greater(a, a),
        greater(a, b) ==> !greater(b, a),
{
}

/// Of two numbers, one is greater than the other or they are equal.
pub proof fn numbers_are_comparable(a: u64, b: u64)
    requires
        !is_nan(a),
        !is_nan(b),
    ensures
        greater(a, b) || greater(b, a) || equal(a, b),
{
}

/// What is greater than a value is greater than all that the value is
/// greater than.
pub proof fn greater_is_transitive(a: u64, b: u64, c: u64)
    requires
        greater(a, b),
        greater(b, c),
    ensures
        greater(a, c),
{
}

} // verus!
