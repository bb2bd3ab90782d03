//! Points of the complex plane and the quadratic map on them.

use vstd::prelude::*;
use crate::fixed::{
    lemma_product_bound, lemma_scale_down_is_odd, lemma_square_bound, scale_down, scale_down_exec, square, ONE,
};

verus! {

/// A point of the complex plane; each coordinate counts units of 2^-30.
#[derive(Clone, Copy, Debug, PartialEq, Eq, Structural)]
pub struct ComplexPoint {
    pub re: i64,
    pub im: i64,
}

/// The mathematical value of a point: two unbounded integers, in units of 2^-30.
pub struct PlanePoint {
    pub re: int,
    pub im: int,
}

impl View for ComplexPoint {
    type V = PlanePoint;

    open spec fn view(&self) -> PlanePoint {
        PlanePoint { re: self.re as int, im: self.im as int }
    }
}

/// Largest squared radius, in plane units, that the escape tests accept.
pub const MAX_BOUND_SQ: u32 = 0xffff_ffff;

/// `|z|^2`, in units of 2^-60.
pub open spec fn norm_sqr(z: PlanePoint) -> int {
    z.re * z.re + z.im * z.im
}

/// Whether `|z|^2` does not exceed `bound_sq` plane units.
pub open spec fn bounded(z: PlanePoint, bound_sq: int) -> bool {
    norm_sqr(z) <= bound_sq * ONE * ONE
}

/// `z^2 + c`, each coordinate of the square rounded toward zero to a
/// multiple of 2^-30, so that the step commutes with mirroring.
pub open spec fn square_plus(z: PlanePoint, c: PlanePoint) -> PlanePoint {
    PlanePoint {
        re: scale_down(z.re * z.re - z.im * z.im) + c.re,
        im: scale_down(2 * z.re * z.im) + c.im,
    }
}

/// The mirror image of `z` across the real axis.
pub open spec fn conjugate(z: PlanePoint) -> PlanePoint {
    PlanePoint { re: z.re, im: -z.im }
}

/// The `n`-th point of the orbit of `z0` under `z -> z^2 + c`.
pub open spec fn orbit(c: PlanePoint, z0: PlanePoint, n: nat) -> PlanePoint
    decreases n,
{
    if n == 0 {
        z0
    } else {
        square_plus(orbit(c, z0, (n - 1) as nat), c)
    }
}

/// The origin of the plane.
pub open spec fn origin() -> PlanePoint {
    PlanePoint { re: 0, im: 0 }
}

/// A point inside the disc of squared radius `bound_sq <= 2^32 - 1` has
/// coordinates of magnitude at most 2^46.
pub proof fn lemma_bounded_coordinates(z: PlanePoint, bound_sq: int)
    requires
        0 <= bound_sq <= MAX_BOUND_SQ,
        bounded(z, bound_sq),
    ensures
        -0x4000_0000_0000 <= z.re <= 0x4000_0000_0000,
        -0x4000_0000_0000 <= z.im <= 0x4000_0000_0000,
        norm_sqr(z) <= 0x1000_0000_0000_0000_0000_0000,
{
    let limit: int = 0x4000_0000_0000;
    assert(bound_sq * ONE * ONE <= limit * limit) by (nonlinear_arith)
        requires
            0 <= bound_sq <= 0xffff_ffff,
            ONE == 0x4000_0000,
            limit == 0x4000_0000_0000,
    ;
    assert(limit * limit == 0x1000_0000_0000_0000_0000_0000) by (nonlinear_arith)
        requires
            limit == 0x4000_0000_0000,
    ;
    assert(z.re * z.re >= 0 && z.im * z.im >= 0) by (nonlinear_arith);
    lemma_square_bound(z.re, limit);
    lemma_square_bound(z.im, limit);
}

/// Twice a product never exceeds the sum of the squares in magnitude.
pub proof fn lemma_cross_term(a: int, b: int)
    by (nonlinear_arith)
    ensures
        -(a * a + b * b) <= 2 * a * b <= a * a + b * b,
{
    assert((a - b) * (a - b) >= 0);
    assert((a + b) * (a + b) >= 0);
}

/// Mirroring a point across the real axis leaves its magnitude as it is.
pub proof fn lemma_conjugate_norm(z: PlanePoint, bound_sq: int)
    ensures
        norm_sqr(conjugate(z)) == norm_sqr(z),
        bounded(conjugate(z), bound_sq) == bounded(z, bound_sq),
{
    assert((-z.im) * (-z.im) == z.im * z.im) by (nonlinear_arith);
}

/// One step of the quadratic map commutes with mirroring: the step from
/// the mirror image of `z` with the mirror image of `c` leads to the
/// mirror image of the step from `z` with `c`.
pub proof fn lemma_step_conjugate(z: PlanePoint, c: PlanePoint)
    ensures
        square_plus(conjugate(z), conjugate(c)) == conjugate(square_plus(z, c)),
{
    assert((-z.im) * (-z.im) == z.im * z.im) by (nonlinear_arith);
    assert(2 * z.re * (-z.im) == -(2 * z.re * z.im)) by (nonlinear_arith);
    lemma_scale_down_is_odd(2 * z.re * z.im);
}

/// The orbit of a mirrored start under a mirrored constant is the mirror
/// image of the orbit, point by point.
pub proof fn lemma_orbit_conjugate(c: PlanePoint, z0: PlanePoint, n: nat)
    ensures
        orbit(conjugate(c), conjugate(z0), n) == conjugate(orbit(c, z0, n)),
    decreases n,
{
    if n > 0 {
        lemma_orbit_conjugate(c, z0, (n - 1) as nat);
        lemma_step_conjugate(orbit(c, z0, (n - 1) as nat), c);
    }
}

/// The first step of an orbit that starts at the origin lands on `c`.
pub proof fn lemma_first_step(c: PlanePoint)
    ensures
        square_plus(origin(), c) == c,
        orbit(c, origin(), 1) == c,
{
    assert(orbit(c, origin(), 0) == origin());
    assert(orbit(c, origin(), 1) == square_plus(orbit(c, origin(), 0), c));
}

impl ComplexPoint {
    /// The point `re + im i`, both parts in units of 2^-30.
    pub fn new(re: i64, im: i64) -> (p: ComplexPoint)
        ensures
            p.re == re,
            p.im == im,
    {
        ComplexPoint { re, im }
    }

    /// `|self|^2` in units of 2^-60.
    pub fn norm_sqr(&self) -> (n: u128)
        ensures
            n == norm_sqr(self@),
    {
        let a: i128 = square(self.re);
        let b: i128 = square(self.im);
        (a as u128) + (b as u128)
    }

    /// Whether `|self|^2 <= bound_sq`, the bound given in whole plane units.
    pub fn is_bounded(&self, bound_sq: u32) -> (b: bool)
        ensures
            b == bounded(self@, bound_sq as int),
    {
        let limit: u128 = (bound_sq as u128) * 0x1000_0000_0000_0000u128;
        assert(limit == bound_sq * ONE * ONE) by (nonlinear_arith)
            requires
                limit == bound_sq * 0x1000_0000_0000_0000,
                ONE == 0x4000_0000,
        ;
        self.norm_sqr() <= limit
    }

    /// The mirror image across the real axis.
    pub fn conj(&self) -> (p: ComplexPoint)
        requires
            self.im > i64::MIN,
        ensures
            p@ == conjugate(self@),
    {
        ComplexPoint { re: self.re, im: -self.im }
    }

    /// One step of the quadratic map, `self^2 + c`.
    pub fn square_plus(&self, c: &ComplexPoint) -> (p: ComplexPoint)
        requires
            norm_sqr(self@) <= 0x1000_0000_0000_0000_0000_0000,
            -0x2000_0000_0000_0000 <= c.re <= 0x2000_0000_0000_0000,
            -0x2000_0000_0000_0000 <= c.im <= 0x2000_0000_0000_0000,
        ensures
            p@ == square_plus(self@, c@),
            -0x6000_0000_0000_0000 <= p.re <= 0x6000_0000_0000_0000,
            -0x6000_0000_0000_0000 <= p.im <= 0x6000_0000_0000_0000,
    {
        let a: i128 = square(self.re);
        let b: i128 = square(self.im);
        let re: i128 = self.re as i128;
        let im: i128 = self.im as i128;
        proof {
            let limit: int = 0x4000_0000_0000;
            assert(limit * limit == 0x1000_0000_0000_0000_0000_0000) by (nonlinear_arith)
                requires
                    limit == 0x4000_0000_0000,
            ;
            lemma_square_bound(self.re as int, limit);
            lemma_square_bound(self.im as int, limit);
            lemma_product_bound(self.re as int, self.im as int, limit, limit);
            lemma_cross_term(self.re as int, self.im as int);
        }
        let cross: i128 = 2 * (re * im);
        assert(cross == 2 * self.re * self.im) by (nonlinear_arith)
            requires
                cross == 2 * (re * im),
                re == self.re,
                im == self.im,
        ;
        let sq_re: i128 = scale_down_exec(a - b);
        let sq_im: i128 = scale_down_exec(cross);
        let new_re: i128 = sq_re + (c.re as i128);
        let new_im: i128 = sq_im + (c.im as i128);
        ComplexPoint { re: new_re as i64, im: new_im as i64 }
    }
}

} // verus!
