//! The order of floating-point numbers, read off their bit patterns.
//!
//! Numbers of single and double precision appear in this library as their IEEE 754
//! bit patterns. Nothing is computed with them here; they are only compared, and kept
//! within bounds.

use vstd::prelude::*;

verus! {

/// The sign bit of a single-precision number.
pub const SINGLE_SIGN: u32 = 0x8000_0000;

/// The bit pattern of single-precision infinity.
pub const SINGLE_INFINITY: u32 = 0x7f80_0000;

/// The bit pattern of the single-precision number one.
pub const SINGLE_ONE: u32 = 0x3f80_0000;

/// The sign bit of a double-precision number.
pub const DOUBLE_SIGN: u64 = 0x8000_0000_0000_0000;

/// The bit pattern of double-precision infinity.
pub const DOUBLE_INFINITY: u64 = 0x7ff0_0000_0000_0000;

/// The pattern without its sign.
pub open spec fn single_magnitude(bits: u32) -> int {
    if bits >= SINGLE_SIGN {
        bits - SINGLE_SIGN
    } else {
        bits as int
    }
}

/// The pattern is no number.
pub open spec fn single_nan(bits: u32) -> bool {
    single_magnitude(bits) > SINGLE_INFINITY
}

/// The pattern is a finite number.
pub open spec fn single_finite(bits: u32) -> bool {
    single_magnitude(bits) < SINGLE_INFINITY
}

/// A number's place in the order: both zeros have the same one.
pub open spec fn single_rank(bits: u32) -> int {
    if bits >= SINGLE_SIGN {
        -single_magnitude(bits)
    } else {
        single_magnitude(bits)
    }
}

/// `a < b`; false where one of them is no number.
pub open spec fn single_below(a: u32, b: u32) -> bool {
    !single_nan(a) && !single_nan(b) && single_rank(a) < single_rank(b)
}

/// `a >= b`; false where one of them is no number.
pub open spec fn single_reaches(a: u32, b: u32) -> bool {
    !single_nan(a) && !single_nan(b) && single_rank(a) >= single_rank(b)
}

/// The nearest number between zero and one; zero for what is no number.
pub open spec fn into_unit(bits: u32) -> u32 {
    if single_nan(bits) || single_rank(bits) <= 0 {
        0
    } else if single_rank(bits) > single_rank(SINGLE_ONE) {
        SINGLE_ONE
    } else {
        bits
    }
}

/// The pattern without its sign.
pub open spec fn double_magnitude(bits: u64) -> int {
    if bits >= DOUBLE_SIGN {
        bits - DOUBLE_SIGN
    } else {
        bits as int
    }
}

/// The pattern is no number.
pub open spec fn double_nan(bits: u64) -> bool {
    double_magnitude(bits) > DOUBLE_INFINITY
}

/// A number's place in the order: both zeros have the same one.
pub open spec fn double_rank(bits: u64) -> int {
    if bits >= DOUBLE_SIGN {
        -double_magnitude(bits)
    } else {
        double_magnitude(bits)
    }
}

/// `a >= b`; false where one of them is no number.
pub open spec fn double_reaches(a: u64, b: u64) -> bool {
    !double_nan(a) && !double_nan(b) && double_rank(a) >= double_rank(b)
}

fn magnitude_of(bits: u32) -> (r: u32)
    ensures
        r == single_magnitude(bits),
{
    if bits >= SINGLE_SIGN {
        bits - SINGLE_SIGN
    } else {
        bits
    }
}

fn double_magnitude_of(bits: u64) -> (r: u64)
    ensures
        r == double_magnitude(bits),
{
    if bits >= DOUBLE_SIGN {
        bits - DOUBLE_SIGN
    } else {
        bits
    }
}

/// The nearest number between zero and one; zero for what is no number.
pub fn clamp_to_unit(bits: u32) -> (r: u32)
    ensures
        r == into_unit(bits),
        r <= SINGLE_ONE,
{
    if bits > SINGLE_INFINITY {
        0
    } else if bits > SINGLE_ONE {
        SINGLE_ONE
    } else {
        bits
    }
}

/// Whether the pattern is no number.
pub fn is_nan(bits: u32) -> (r: bool)
    ensures
        r == single_nan(bits),
{
    magnitude_of(bits) > SINGLE_INFINITY
}

/// Whether the pattern is a finite number.
pub fn is_finite(bits: u32) -> (r: bool)
    ensures
        r == single_finite(bits),
{
    magnitude_of(bits) < SINGLE_INFINITY
}

/// Whether the pattern is one of the two zeros.
pub fn is_zero(bits: u32) -> (r: bool)
    ensures
        r == (single_magnitude(bits) == 0),
{
    magnitude_of(bits) == 0
}

/// `a < b`.
pub fn is_below(a: u32, b: u32) -> (r: bool)
    ensures
        r == single_below(a, b),
{
    if is_nan(a) || is_nan(b) {
        return false;
    }
    let x: u32 = magnitude_of(a);
    let y: u32 = magnitude_of(b);
    if a >= SINGLE_SIGN {
        if b >= SINGLE_SIGN {
            y < x
        } else {
            x > 0 || y > 0
        }
    } else {
        b < SINGLE_SIGN && x < y
    }
}

/// `a >= b`.
pub fn reaches(a: u32, b: u32) -> (r: bool)
    ensures
        r == single_reaches(a, b),
{
    !is_nan(a) && !is_nan(b) && !is_below(a, b)
}

/// `a >= b` in double precision.
pub fn double_at_least(a: u64, b: u64) -> (r: bool)
    ensures
        r == double_reaches(a, b),
{
    let x: u64 = double_magnitude_of(a);
    let y: u64 = double_magnitude_of(b);
    if x > DOUBLE_INFINITY || y > DOUBLE_INFINITY {
        return false;
    }
    if a >= DOUBLE_SIGN {
        if b >= DOUBLE_SIGN {
            x <= y
        } else {
            x == 0 && y == 0
        }
    } else {
        b >= DOUBLE_SIGN || x >= y
    }
}

/// Numbers are in one order: of two that are numbers either one is below the other or both
/// have the same place, and what reaches a number is exactly what is not below it. What is
/// no number is neither below nor above anything.
pub proof fn law_numbers_are_in_order(a: u32, b: u32, c: u32)
    ensures
        single_below(a, b) && single_below(b, c) ==> single_below(a, c),
        !single_below(a, a),
        !single_nan(a) && !single_nan(b) ==> single_reaches(a, b) == !single_below(a, b),
        single_nan(a) || single_nan(b) ==> !single_below(a, b) && !single_reaches(a, b),
        a < b <= SINGLE_INFINITY ==> single_below(a, b),
        a <= SINGLE_INFINITY && SINGLE_SIGN < b <= 0xff80_0000 ==> single_below(b, a),
        SINGLE_SIGN <= a < b <= 0xff80_0000 ==> single_below(b, a),
        !single_below(0, SINGLE_SIGN) && !single_below(SINGLE_SIGN, 0),
{
}

/// Bringing a number between zero and one keeps one that is there already, keeps the order,
/// and never leaves the interval.
pub proof fn law_units_keep_the_order(a: u32, b: u32)
    ensures
        into_unit(a) <= SINGLE_ONE,
        a <= SINGLE_ONE ==> into_unit(a) == a,
        SINGLE_ONE <= a <= SINGLE_INFINITY ==> into_unit(a) == SINGLE_ONE,
        a >= SINGLE_SIGN ==> into_unit(a) == 0,
        single_below(a, b) ==> into_unit(a) <= into_unit(b),
{
}

/// The same order in double precision.
pub proof fn law_doubles_are_in_order(a: u64, b: u64)
    ensures
        !double_nan(a) && !double_nan(b) ==> double_reaches(a, b) || double_reaches(b, a),
        double_reaches(a, b) && a <= DOUBLE_INFINITY && b <= DOUBLE_INFINITY ==> a >= b,
        a <= DOUBLE_INFINITY && b <= a ==> double_reaches(a, b),
        double_nan(a) || double_nan(b) ==> !double_reaches(a, b),
        a <= DOUBLE_INFINITY && DOUBLE_SIGN < b && !double_nan(b) ==> double_reaches(a, b)
            && !double_reaches(b, a),
{
}

} // verus!
