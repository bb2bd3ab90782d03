//! Fixed-point numbers: an `i64` that counts units of 2^-30.

use vstd::prelude::*;

verus! {

/// Number of fractional bits of a fixed-point value.
pub const FRAC_BITS: u32 = 30;

/// The fixed-point representation of 1.
pub const ONE: i64 = 0x4000_0000;

/// Floor of `a / b` for a positive divisor, on 128-bit operands.
pub fn div_floor(a: i128, b: i128) -> (q: i128)
    requires
        b > 0,
    ensures
        q == (a as int) / (b as int),
{
    assert(i128::MIN <= (a as int) / (b as int) <= i128::MAX) by (nonlinear_arith)
        requires
            b > 0,
            i128::MIN <= a <= i128::MAX,
    ;
    match a.checked_div_euclid(b) {
        Some(q) => q,
        None => 0,
    }
}

/// A number in units of 2^-60 brought to units of 2^-30, rounded toward
/// zero: the result has the sign of `a`, and `-a` gives the negative of it.
pub open spec fn scale_down(a: int) -> int {
    if a >= 0 {
        a / (ONE as int)
    } else {
        -((-a) / (ONE as int))
    }
}

/// Rounding toward zero commutes with negation.
pub proof fn lemma_scale_down_is_odd(a: int)
    ensures
        scale_down(-a) == -scale_down(a),
{
}

/// `a / 2^30`, rounded toward zero.
pub fn scale_down_exec(a: i128) -> (q: i128)
    requires
        a > i128::MIN,
    ensures
        q == scale_down(a as int),
        a >= 0 ==> 0 <= q <= a,
        a <= 0 ==> a <= q <= 0,
{
    if a >= 0 {
        div_floor(a, ONE as i128)
    } else {
        -div_floor(-a, ONE as i128)
    }
}

/// The fixed-point value of a whole number.
pub fn from_int(n: i32) -> (r: i64)
    ensures
        r == n * ONE,
{
    let wide: i64 = n as i64;
    wide * ONE
}

/// `x * x`, which always fits in 128 bits.
pub fn square(x: i64) -> (s: i128)
    ensures
        s == x * x,
        0 <= s <= 0x4000_0000_0000_0000_0000_0000_0000_0000,
{
    let w: i128 = x as i128;
    assert(0 <= w * w <= 0x4000_0000_0000_0000_0000_0000_0000_0000) by (nonlinear_arith)
        requires
            -0x8000_0000_0000_0000 <= w <= 0x7fff_ffff_ffff_ffff,
    ;
    w * w
}

/// A square is never negative, and bounds the magnitude of its root.
pub proof fn lemma_square_bound(x: int, limit: int)
    by (nonlinear_arith)
    requires
        0 <= limit,
        x * x <= limit * limit,
    ensures
        -limit <= x <= limit,
{
}

/// The product of two bounded integers is bounded by the product of the bounds.
pub proof fn lemma_product_bound(a: int, b: int, la: int, lb: int)
    by (nonlinear_arith)
    requires
        -la <= a <= la,
        -lb <= b <= lb,
    ensures
        -(la * lb) <= a * b <= la * lb,
{
}

} // verus!
