//! Fixed-point arithmetic in millionths.
//!
//! A value `v` of this module stands for the real number `v / ONE`. Sums and
//! products saturate at the bounds of `i64` instead of overflowing.

use vstd::prelude::*;

verus! {

/// The fixed-point representation of the real number one.
pub const ONE: i64 = 1_000_000;

/// The nearest `i64` to a mathematical integer.
pub open spec fn saturate(x: int) -> i64 {
    if x < i64::MIN as int {
        i64::MIN
    } else if x > i64::MAX as int {
        i64::MAX
    } else {
        x as i64
    }
}

/// Integer quotient rounded toward zero.
pub open spec fn quot(x: int, d: int) -> int
    recommends
        d > 0,
{
    if x >= 0 {
        x / d
    } else {
        -((-x) / d)
    }
}

/// The fixed-point product of two fixed-point values, before saturation.
pub open spec fn product(a: int, b: int) -> int {
    quot(a * b, ONE as int)
}

/// Absolute difference of two integers.
pub open spec fn distance(a: int, b: int) -> int {
    if a >= b {
        a - b
    } else {
        b - a
    }
}

/// `x` limited to the interval from `-bound` to `bound`.
pub open spec fn limit(x: int, bound: int) -> int
    recommends
        bound >= 0,
{
    if x > bound {
        bound
    } else if x < -bound {
        -bound
    } else {
        x
    }
}

/// Saturating addition.
pub fn add_saturating(a: i64, b: i64) -> (r: i64)
    ensures
        r == saturate(a + b),
{
    let wide: i128 = a as i128 + b as i128;
    narrow(wide)
}

/// Converts a wide integer to `i64`, saturating at the bounds.
pub fn narrow(wide: i128) -> (r: i64)
    ensures
        r == saturate(wide as int),
{
    if wide < i64::MIN as i128 {
        i64::MIN
    } else if wide > i64::MAX as i128 {
        i64::MAX
    } else {
        wide as i64
    }
}

/// Quotient of a wide integer by a positive divisor, rounded toward zero.
pub fn divide(x: i128, d: i128) -> (r: i128)
    requires
        d > 0,
        x > i128::MIN,
    ensures
        r == quot(x as int, d as int),
{
    if x >= 0 {
        x / d
    } else {
        let magnitude: i128 = -x;
        let q: i128 = magnitude / d;
        -q
    }
}

/// Fixed-point multiplication, saturating.
pub fn multiply(a: i64, b: i64) -> (r: i64)
    ensures
        r == saturate(product(a as int, b as int)),
{
    assert(-0x8000_0000_0000_0000 <= a < 0x8000_0000_0000_0000);
    assert(-0x8000_0000_0000_0000 <= b < 0x8000_0000_0000_0000);
    assert(-0x4000_0000_0000_0000_0000_0000_0000_0000 <= a * b
        <= 0x4000_0000_0000_0000_0000_0000_0000_0000) by (nonlinear_arith)
        requires
            -0x8000_0000_0000_0000 <= a < 0x8000_0000_0000_0000,
            -0x8000_0000_0000_0000 <= b < 0x8000_0000_0000_0000,
    ;
    let wide: i128 = a as i128 * b as i128;
    narrow(divide(wide, ONE as i128))
}

/// Absolute difference of two fixed-point values.
pub fn abs_diff(a: i64, b: i64) -> (r: u64)
    ensures
        r == distance(a as int, b as int),
{
    if a >= b {
        (a as i128 - b as i128) as u64
    } else {
        (b as i128 - a as i128) as u64
    }
}

/// Limits `x` to the interval from `-bound` to `bound`.
pub fn clamp(x: i64, bound: i64) -> (r: i64)
    requires
        bound >= 0,
    ensures
        r == limit(x as int, bound as int),
{
    if x > bound {
        bound
    } else if x < -bound {
        -bound
    } else {
        x
    }
}

} // verus!
