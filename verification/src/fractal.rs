//! Escape-time evaluation of the Mandelbrot set and of one Julia set.

use vstd::prelude::*;
use crate::complex::{
    bounded, conjugate, lemma_bounded_coordinates, lemma_conjugate_norm, lemma_first_step,
    lemma_orbit_conjugate, lemma_step_conjugate, norm_sqr, orbit, origin, square_plus, ComplexPoint,
    PlanePoint,
};
use crate::fixed::ONE;

verus! {

/// Squared escape radius of the plain escape test: radius 2.
pub const DEFAULT_BOUND_SQ: u32 = 4;

/// Squared escape radius that leaves room for smooth colouring: radius 256.
pub const SMOOTH_BOUND_SQ: u32 = 0x1_0000;

/// Real part of the Julia constant, -0.4 to the nearest unit.
pub const JULIA_RE: i64 = -429_496_730;

/// Imaginary part of the Julia constant, 0.6 to the nearest unit.
pub const JULIA_IM: i64 = 644_245_094;

/// How an escape-time evaluation is carried out.
#[derive(Clone, Copy, Debug, PartialEq, Eq, Structural)]
pub struct EvalConfig {
    /// Squared escape radius in whole plane units.
    pub bound_sq: u32,
    /// Whether points of the main cardioid and the period-2 bulb are answered
    /// without iterating.
    pub short_circuit: bool,
}

/// The outcome of an escape-time evaluation.
#[derive(Clone, Copy, Debug, PartialEq, Eq, Structural)]
pub struct Escape {
    /// Steps taken before the orbit left the disc, or the whole budget.
    pub iterations: u32,
    /// The orbit point at which the evaluation stopped.
    pub z: ComplexPoint,
}

/// Closed-form membership in the main cardioid:
/// `q (q + (x - 1/4)) < y^2 / 4` with `q = (x - 1/4)^2 + y^2`.
pub open spec fn in_cardioid(p: PlanePoint) -> bool {
    let x = p.re - ONE / 4;
    let q = x * x + p.im * p.im;
    4 * q * (q + x * ONE) < p.im * p.im * ONE * ONE
}

/// Closed-form membership in the period-2 bulb: `(x + 1)^2 + y^2 < 1/16`.
pub open spec fn in_period2_bulb(p: PlanePoint) -> bool {
    16 * ((p.re + ONE) * (p.re + ONE) + p.im * p.im) < ONE * ONE
}

/// Membership in either region that can be answered without iterating.
pub open spec fn in_main_body(p: PlanePoint) -> bool {
    in_cardioid(p) || in_period2_bulb(p)
}

/// Number of steps of `z -> z^2 + c` taken from `z` while the orbit stays
/// inside the disc, at most `budget`.
pub open spec fn escape_time(c: PlanePoint, z: PlanePoint, bound_sq: int, budget: nat) -> nat
    decreases budget,
{
    if budget == 0 || !bounded(z, bound_sq) {
        0
    } else {
        1 + escape_time(c, square_plus(z, c), bound_sq, (budget - 1) as nat)
    }
}

/// What the Mandelbrot evaluation returns for `pt`: the step count and the
/// point at which it stopped.
pub open spec fn mandelbrot_escape(pt: PlanePoint, max: nat, cfg: EvalConfig) -> (nat, PlanePoint) {
    if cfg.short_circuit && in_main_body(pt) {
        (max, origin())
    } else {
        let n = escape_time(pt, origin(), cfg.bound_sq as int, max);
        (n, orbit(pt, origin(), n))
    }
}

/// The configuration of `eval_mandelbrot`: radius 2, regions answered directly.
pub open spec fn default_config() -> EvalConfig {
    EvalConfig { bound_sq: DEFAULT_BOUND_SQ, short_circuit: true }
}

/// The Julia constant.
pub open spec fn julia_constant() -> PlanePoint {
    PlanePoint { re: JULIA_RE as int, im: JULIA_IM as int }
}

/// What `eval_julia` returns: the index of the last step taken inside the
/// disc of radius 2, and 0 when no step is taken.
pub open spec fn julia_index(pt: PlanePoint, max: nat) -> nat {
    let n = escape_time(julia_constant(), pt, DEFAULT_BOUND_SQ as int, max);
    if n == 0 {
        0
    } else {
        (n - 1) as nat
    }
}

/// Shifting the start of an orbit by one step shifts every index by one.
pub proof fn lemma_orbit_shift(c: PlanePoint, z0: PlanePoint, n: nat)
    ensures
        orbit(c, square_plus(z0, c), n) == orbit(c, z0, n + 1),
    decreases n,
{
    if n > 0 {
        lemma_orbit_shift(c, z0, (n - 1) as nat);
    } else {
        assert(orbit(c, z0, 0) == z0);
        assert(orbit(c, z0, 1) == square_plus(orbit(c, z0, 0), c));
    }
}

/// The escape time never exceeds the budget.
pub proof fn lemma_escape_time_within_budget(c: PlanePoint, z: PlanePoint, bound_sq: int, budget: nat)
    ensures
        escape_time(c, z, bound_sq, budget) <= budget,
    decreases budget,
{
    if budget > 0 && bounded(z, bound_sq) {
        lemma_escape_time_within_budget(c, square_plus(z, c), bound_sq, (budget - 1) as nat);
    }
}

/// The escape time is the index of the first orbit point outside the disc,
/// or the budget when no earlier point is outside.
pub proof fn lemma_escape_time_is_first_exit(c: PlanePoint, z0: PlanePoint, bound_sq: int, budget: nat)
    ensures
        forall|k: nat| k < escape_time(c, z0, bound_sq, budget) ==> bounded(#[trigger] orbit(c, z0, k), bound_sq),
        escape_time(c, z0, bound_sq, budget) < budget ==> !bounded(
            orbit(c, z0, escape_time(c, z0, bound_sq, budget)),
            bound_sq,
        ),
    decreases budget,
{
    if budget > 0 && bounded(z0, bound_sq) {
        let z1 = square_plus(z0, c);
        let rest = (budget - 1) as nat;
        lemma_escape_time_is_first_exit(c, z1, bound_sq, rest);
        let n = escape_time(c, z0, bound_sq, budget);
        assert(n == 1 + escape_time(c, z1, bound_sq, rest));
        assert forall|k: nat| k < n implies bounded(#[trigger] orbit(c, z0, k), bound_sq) by {
            if k > 0 {
                lemma_orbit_shift(c, z0, (k - 1) as nat);
                assert(bounded(orbit(c, z1, (k - 1) as nat), bound_sq));
            }
        }
        lemma_orbit_shift(c, z0, (n - 1) as nat);
    }
}

/// Any index with the two properties of the first exit is the escape time.
pub proof fn lemma_first_exit_is_escape_time(c: PlanePoint, z0: PlanePoint, bound_sq: int, budget: nat, n: nat)
    requires
        n <= budget,
        forall|k: nat| k < n ==> bounded(#[trigger] orbit(c, z0, k), bound_sq),
        n < budget ==> !bounded(orbit(c, z0, n), bound_sq),
    ensures
        escape_time(c, z0, bound_sq, budget) == n,
{
    let e = escape_time(c, z0, bound_sq, budget);
    lemma_escape_time_within_budget(c, z0, bound_sq, budget);
    lemma_escape_time_is_first_exit(c, z0, bound_sq, budget);
    if e < n {
        assert(bounded(orbit(c, z0, e), bound_sq));
    } else if n < e {
        assert(bounded(orbit(c, z0, n), bound_sq));
    }
}

/// At distance `s` or more from the cusp, `4 (q + x s) >= y^2`.
proof fn lemma_far_step(x: int, y: int, s: int)
    by (nonlinear_arith)
    requires
        s > 0,
        x * x + y * y >= s * s,
    ensures
        4 * ((x * x + y * y) + x * s) >= y * y,
{
    if x >= -s {
        assert((x + s) * (x + 3 * s) >= 0);
        assert(4 * x * x + 4 * x * s + 3 * (s * s - x * x) == (x + s) * (x + 3 * s));
    } else {
        assert(x * (x + s) >= 0);
    }
}

/// Products of non-negative factors keep the order of the factors.
proof fn lemma_scaled_order(q: int, t: int, a: int, b: int)
    by (nonlinear_arith)
    requires
        q >= a,
        a >= 0,
        t >= b,
        b >= 0,
    ensures
        q * t >= a * b,
{
}

/// A point at distance 1 or more from the cusp at 1/4 lies outside the cardioid.
pub proof fn lemma_far_from_cusp(p: PlanePoint)
    requires
        ({
            let x = p.re - ONE / 4;
            x <= -ONE || x >= ONE || p.im <= -ONE || p.im >= ONE
        }),
    ensures
        !in_cardioid(p),
{
    let x = p.re - ONE / 4;
    let y = p.im;
    let s = ONE as int;
    let q = x * x + y * y;
    assert(q >= s * s) by (nonlinear_arith)
        requires
            q == x * x + y * y,
            s > 0,
            x <= -s || x >= s || y <= -s || y >= s,
    ;
    lemma_far_step(x, y, s);
    let t = 4 * (q + x * s);
    assert(y * y >= 0) by (nonlinear_arith);
    assert(s * s >= 0) by (nonlinear_arith);
    lemma_scaled_order(q, t, s * s, y * y);
    assert(4 * q * (q + x * s) == q * t) by (nonlinear_arith)
        requires
            t == 4 * (q + x * s),
    ;
    assert(y * y * s * s == (s * s) * (y * y)) by (nonlinear_arith);
}

/// A point of magnitude above 2 lies in neither the main cardioid nor the
/// period-2 bulb.
pub proof fn lemma_outside_radius_two_not_in_main_body(p: PlanePoint)
    requires
        !bounded(p, DEFAULT_BOUND_SQ as int),
    ensures
        !in_main_body(p),
{
    let s = ONE as int;
    let x = p.re - ONE / 4;
    assert(p.re * p.re + p.im * p.im > 4 * s * s) by (nonlinear_arith)
        requires
            p.re * p.re + p.im * p.im > 4 * ONE * ONE,
            s == ONE,
    ;
    assert(x <= -s || x >= s || p.im <= -s || p.im >= s) by (nonlinear_arith)
        requires
            p.re * p.re + p.im * p.im > 4 * s * s,
            x == p.re - s / 4,
            s == 0x4000_0000,
    ;
    lemma_far_from_cusp(p);
    assert(!(16 * ((p.re + s) * (p.re + s) + p.im * p.im) < s * s)) by (nonlinear_arith)
        requires
            p.re * p.re + p.im * p.im > 4 * s * s,
            s == 0x4000_0000,
    ;
}

/// A point of magnitude above 2 escapes the disc of radius 2 at the first
/// step, which is before the budget is spent whenever the budget is at least 2.
pub proof fn lemma_outside_radius_two_escapes(pt: PlanePoint, max: nat, short_circuit: bool)
    requires
        !bounded(pt, DEFAULT_BOUND_SQ as int),
        max >= 2,
    ensures
        mandelbrot_escape(pt, max, EvalConfig { bound_sq: DEFAULT_BOUND_SQ, short_circuit }).0 == 1,
        mandelbrot_escape(pt, max, EvalConfig { bound_sq: DEFAULT_BOUND_SQ, short_circuit }).0 < max,
{
    lemma_outside_radius_two_not_in_main_body(pt);
    lemma_first_step(pt);
    assert(orbit(pt, origin(), 0) == origin());
    assert(bounded(origin(), DEFAULT_BOUND_SQ as int)) by (nonlinear_arith)
        requires
            ONE > 0,
            norm_sqr(origin()) == 0,
    ;
    assert forall|k: nat| k < 1 implies bounded(#[trigger] orbit(pt, origin(), k), DEFAULT_BOUND_SQ as int) by {
        assert(k == 0);
    }
    lemma_first_exit_is_escape_time(pt, origin(), DEFAULT_BOUND_SQ as int, max, 1);
}

/// Where the regions are answered without iterating, a point of the main
/// cardioid or of the period-2 bulb is answered with the whole budget.
pub proof fn lemma_short_circuit_answers_budget(pt: PlanePoint, max: nat, bound_sq: u32)
    requires
        in_main_body(pt),
    ensures
        mandelbrot_escape(pt, max, EvalConfig { bound_sq, short_circuit: true }).0 == max,
{
}

/// The two regions are symmetric about the real axis.
pub proof fn lemma_main_body_conjugate(p: PlanePoint)
    ensures
        in_cardioid(conjugate(p)) == in_cardioid(p),
        in_period2_bulb(conjugate(p)) == in_period2_bulb(p),
        in_main_body(conjugate(p)) == in_main_body(p),
{
    assert((-p.im) * (-p.im) == p.im * p.im) by (nonlinear_arith);
}

/// A mirrored start under a mirrored constant escapes at the same step.
pub proof fn lemma_escape_time_conjugate(c: PlanePoint, z: PlanePoint, bound_sq: int, budget: nat)
    ensures
        escape_time(conjugate(c), conjugate(z), bound_sq, budget) == escape_time(c, z, bound_sq, budget),
    decreases budget,
{
    lemma_conjugate_norm(z, bound_sq);
    if budget > 0 && bounded(z, bound_sq) {
        lemma_step_conjugate(z, c);
        lemma_escape_time_conjugate(c, square_plus(z, c), bound_sq, (budget - 1) as nat);
    }
}

/// The escape measure is symmetric about the real axis: a point and its
/// mirror image get the same step count, and stop at mirrored points.
pub proof fn lemma_mandelbrot_escape_conjugate(pt: PlanePoint, max: nat, cfg: EvalConfig)
    ensures
        mandelbrot_escape(conjugate(pt), max, cfg).0 == mandelbrot_escape(pt, max, cfg).0,
        mandelbrot_escape(conjugate(pt), max, cfg).1 == conjugate(mandelbrot_escape(pt, max, cfg).1),
{
    lemma_main_body_conjugate(pt);
    assert(conjugate(origin()) == origin());
    lemma_escape_time_conjugate(pt, origin(), cfg.bound_sq as int, max);
    lemma_orbit_conjugate(pt, origin(), escape_time(pt, origin(), cfg.bound_sq as int, max));
}

/// The share of the budget that was used, as a fixed-point number in [0, 1].
pub open spec fn intensity_of(iterations: nat, max: nat) -> int {
    if max == 0 {
        0
    } else if iterations >= max {
        ONE as int
    } else {
        (iterations * ONE) / (max as int)
    }
}

/// The share of the budget that was used, as a fixed-point number in [0, 1].
pub fn intensity(iterations: u32, max: u32) -> (v: i64)
    ensures
        v == intensity_of(iterations as nat, max as nat),
        0 <= v <= ONE,
{
    if max == 0 {
        0
    } else if iterations >= max {
        ONE
    } else {
        let one: u64 = ONE as u64;
        assert((iterations as u64) * one <= 0xffff_ffff * 0x4000_0000) by (nonlinear_arith)
            requires
                iterations <= 0xffff_ffff,
                one == 0x4000_0000,
        ;
        let scaled: u64 = (iterations as u64) * one;
        let share: u64 = scaled / (max as u64);
        assert(share <= ONE) by (nonlinear_arith)
            requires
                share == (iterations * ONE) / (max as int),
                0 <= iterations < max,
                ONE > 0,
        ;
        share as i64
    }
}

/// Whether `pt` lies strictly inside the main cardioid.
pub fn check_cardioid(pt: ComplexPoint) -> (inside: bool)
    ensures
        inside == in_cardioid(pt@),
{
    let one: i128 = ONE as i128;
    let x: i128 = (pt.re as i128) - one / 4;
    let y: i128 = pt.im as i128;
    if x <= -one || x >= one || y <= -one || y >= one {
        proof {
            lemma_far_from_cusp(pt@);
        }
        return false;
    }
    assert(0 <= x * x < 0x1000_0000_0000_0000 && 0 <= y * y < 0x1000_0000_0000_0000
        && -0x1000_0000_0000_0000 < x * one < 0x1000_0000_0000_0000 && one * one
        == 0x1000_0000_0000_0000) by (nonlinear_arith)
        requires
            -0x4000_0000 < x < 0x4000_0000,
            -0x4000_0000 < y < 0x4000_0000,
            one == 0x4000_0000,
    ;
    let q: i128 = x * x + y * y;
    let t: i128 = q + x * one;
    assert(-0x1000_0000_0000_0000_0000_0000_0000_0000 < q * t
        < 0x1000_0000_0000_0000_0000_0000_0000_0000) by (nonlinear_arith)
        requires
            0 <= q < 0x2000_0000_0000_0000,
            -0x1000_0000_0000_0000 < t < 0x3000_0000_0000_0000,
    ;
    let lhs: i128 = 4 * (q * t);
    assert(0 <= (y * y) * (one * one) < 0x100_0000_0000_0000_0000_0000_0000_0000) by (nonlinear_arith)
        requires
            0 <= y * y < 0x1000_0000_0000_0000,
            one * one == 0x1000_0000_0000_0000,
    ;
    let rhs: i128 = (y * y) * (one * one);
    proof {
        let xi = pt@.re - ONE / 4;
        let yi = pt@.im;
        let qi = xi * xi + yi * yi;
        assert(xi == x && yi == y && qi == q);
        assert(4 * qi * (qi + xi * ONE) == 4 * (q * t)) by (nonlinear_arith)
            requires
                qi == q,
                t == q + x * one,
                xi == x,
                one == ONE,
        ;
        assert(yi * yi * ONE * ONE == (y * y) * (one * one)) by (nonlinear_arith)
            requires
                yi == y,
                one == ONE,
        ;
    }
    lhs < rhs
}

/// Whether `pt` lies strictly inside the period-2 bulb.
pub fn check_period2_bulb(pt: ComplexPoint) -> (inside: bool)
    ensures
        inside == in_period2_bulb(pt@),
{
    let one: i128 = ONE as i128;
    let x: i128 = (pt.re as i128) + one;
    let y: i128 = pt.im as i128;
    if x <= -one || x >= one || y <= -one || y >= one {
        assert(x * x + y * y >= one * one && one * one > 0) by (nonlinear_arith)
            requires
                one > 0,
                x <= -one || x >= one || y <= -one || y >= one,
        ;
        return false;
    }
    assert(0 <= x * x < 0x1000_0000_0000_0000 && 0 <= y * y < 0x1000_0000_0000_0000 && one * one
        == 0x1000_0000_0000_0000) by (nonlinear_arith)
        requires
            -0x4000_0000 < x < 0x4000_0000,
            -0x4000_0000 < y < 0x4000_0000,
            one == 0x4000_0000,
    ;
    16 * (x * x + y * y) < one * one
}

/// Runs the orbit of `z0` until it leaves the disc or the budget is spent.
fn run_orbit(c: &ComplexPoint, z0: ComplexPoint, budget: u32, bound_sq: u32) -> (r: (u32, ComplexPoint))
    requires
        -0x2000_0000_0000_0000 <= c.re <= 0x2000_0000_0000_0000,
        -0x2000_0000_0000_0000 <= c.im <= 0x2000_0000_0000_0000,
    ensures
        r.0 == escape_time(c@, z0@, bound_sq as int, budget as nat),
        r.1@ == orbit(c@, z0@, r.0 as nat),
        r.0 > 0 ==> -0x6000_0000_0000_0000 <= r.1.im <= 0x6000_0000_0000_0000,
{
    let mut n: u32 = 0;
    let mut z: ComplexPoint = z0;
    while n < budget && z.is_bounded(bound_sq)
        invariant
            n <= budget,
            -0x2000_0000_0000_0000 <= c.re <= 0x2000_0000_0000_0000,
            -0x2000_0000_0000_0000 <= c.im <= 0x2000_0000_0000_0000,
            z@ == orbit(c@, z0@, n as nat),
            escape_time(c@, z0@, bound_sq as int, budget as nat) == n + escape_time(
                c@,
                z@,
                bound_sq as int,
                (budget - n) as nat,
            ),
            n > 0 ==> -0x6000_0000_0000_0000 <= z.im <= 0x6000_0000_0000_0000,
        decreases budget - n,
    {
        proof {
            lemma_bounded_coordinates(z@, bound_sq as int);
        }
        z = z.square_plus(c);
        n = n + 1;
    }
    (n, z)
}

/// Escape-time evaluation of the Mandelbrot set at `pt` under `cfg`.
pub fn eval_mandelbrot_with(pt: ComplexPoint, max: u32, cfg: &EvalConfig) -> (r: Escape)
    ensures
        r.iterations == mandelbrot_escape(pt@, max as nat, *cfg).0,
        r.z@ == mandelbrot_escape(pt@, max as nat, *cfg).1,
        r.iterations == mandelbrot_escape(conjugate(pt@), max as nat, *cfg).0,
        r.iterations <= max,
        r.iterations < max ==> !bounded(r.z@, cfg.bound_sq as int),
{
    let zero = ComplexPoint { re: 0, im: 0 };
    proof {
        lemma_mandelbrot_escape_conjugate(pt@, max as nat, *cfg);
    }
    if cfg.short_circuit && (check_cardioid(pt) || check_period2_bulb(pt)) {
        return Escape { iterations: max, z: zero };
    }
    proof {
        lemma_escape_time_within_budget(pt@, origin(), cfg.bound_sq as int, max as nat);
        lemma_escape_time_is_first_exit(pt@, origin(), cfg.bound_sq as int, max as nat);
    }
    if max == 0 {
        return Escape { iterations: 0, z: zero };
    }
    proof {
        lemma_first_step(pt@);
        assert(bounded(origin(), cfg.bound_sq as int)) by (nonlinear_arith)
            requires
                cfg.bound_sq >= 0,
                ONE > 0,
                norm_sqr(origin()) == 0,
        ;
    }
    if !pt.is_bounded(cfg.bound_sq) {
        return Escape { iterations: 1, z: pt };
    }
    proof {
        lemma_bounded_coordinates(pt@, cfg.bound_sq as int);
    }
    let (n, z) = run_orbit(&pt, pt, max - 1, cfg.bound_sq);
    proof {
        lemma_orbit_shift(pt@, origin(), n as nat);
        lemma_escape_time_within_budget(pt@, pt@, cfg.bound_sq as int, (max - 1) as nat);
    }
    Escape { iterations: n + 1, z }
}

/// Escape-time evaluation of the Mandelbrot set at `pt` with radius 2, the
/// main cardioid and the period-2 bulb answered without iterating.
pub fn eval_mandelbrot(pt: ComplexPoint, max: u32) -> (r: Escape)
    ensures
        r.iterations == mandelbrot_escape(pt@, max as nat, default_config()).0,
        r.z@ == mandelbrot_escape(pt@, max as nat, default_config()).1,
        r.iterations == mandelbrot_escape(conjugate(pt@), max as nat, default_config()).0,
        in_main_body(pt@) ==> r.iterations == max,
        !bounded(pt@, DEFAULT_BOUND_SQ as int) && max >= 2 ==> r.iterations == 1 && r.iterations < max,
        r.iterations <= max,
        r.iterations < max ==> !bounded(r.z@, DEFAULT_BOUND_SQ as int),
{
    let cfg = EvalConfig { bound_sq: DEFAULT_BOUND_SQ, short_circuit: true };
    proof {
        if !bounded(pt@, DEFAULT_BOUND_SQ as int) && max >= 2 {
            lemma_outside_radius_two_escapes(pt@, max as nat, true);
        }
    }
    eval_mandelbrot_with(pt, max, &cfg)
}

/// Escape-time evaluation of the Julia set of the fixed constant at `pt`.
pub fn eval_julia(pt: ComplexPoint, max: u32) -> (index: u32)
    ensures
        index == julia_index(pt@, max as nat),
{
    let c = ComplexPoint { re: JULIA_RE, im: JULIA_IM };
    let (n, _z) = run_orbit(&c, pt, max, DEFAULT_BOUND_SQ);
    if n == 0 {
        0
    } else {
        n - 1
    }
}

} // verus!
