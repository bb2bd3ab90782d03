use fractal::complex::ComplexPoint;
use fractal::fixed::{from_int, ONE};
use fractal::fractal::{
    check_cardioid, check_period2_bulb, eval_julia, eval_mandelbrot, eval_mandelbrot_with, intensity, Escape,
    EvalConfig, DEFAULT_BOUND_SQ, JULIA_IM, JULIA_RE, SMOOTH_BOUND_SQ,
};

fn fixed_of(v: f64) -> i64 {
    (v * (ONE as f64)).round() as i64
}

fn point(re: f64, im: f64) -> ComplexPoint {
    ComplexPoint::new(fixed_of(re), fixed_of(im))
}

fn float_escape_time(re: f64, im: f64, max: u32, bound_sq: f64) -> u32 {
    let mut zr = 0.0f64;
    let mut zi = 0.0f64;
    let mut n = 0u32;
    while n < max && zr * zr + zi * zi <= bound_sq {
        let t = zr * zr - zi * zi + re;
        zi = 2.0 * zr * zi + im;
        zr = t;
        n += 1;
    }
    n
}

#[test]
fn fixed_point_one_is_two_to_the_thirty() {
    assert_eq!(ONE, 1i64 << 30);
    assert_eq!(from_int(3), 3 * ONE);
    assert_eq!(from_int(-2), -2 * ONE);
}

#[test]
fn points_inside_the_cardioid_get_the_whole_budget() {
    for &(re, im) in &[(0.0, 0.0), (0.2, 0.0), (-0.5, 0.3), (-0.1, 0.6), (0.3, 0.3), (-0.7, 0.05)] {
        let pt = point(re, im);
        assert!(check_cardioid(pt), "({}, {})", re, im);
        for &max in &[0u32, 1, 2, 50, 1000] {
            assert_eq!(eval_mandelbrot(pt, max).iterations, max);
        }
    }
}

#[test]
fn points_inside_the_period_two_bulb_get_the_whole_budget() {
    for &(re, im) in &[(-1.0, 0.0), (-1.2, 0.0), (-1.0, 0.2), (-0.9, -0.1)] {
        let pt = point(re, im);
        assert!(check_period2_bulb(pt), "({}, {})", re, im);
        assert!(!check_cardioid(pt));
        for &max in &[0u32, 1, 7, 50] {
            assert_eq!(eval_mandelbrot(pt, max).iterations, max);
        }
    }
}

#[test]
fn region_tests_are_strict_at_the_boundary() {
    // The cusp of the cardioid and the point where cardioid and bulb touch.
    assert!(!check_cardioid(point(0.25, 0.0)));
    assert!(!check_cardioid(point(-0.75, 0.0)));
    assert!(!check_period2_bulb(point(-0.75, 0.0)));
    assert!(!check_period2_bulb(point(-1.25, 0.0)));
    assert!(check_period2_bulb(ComplexPoint::new(-ONE - ONE / 4 + 1, 0)));
    assert!(check_cardioid(ComplexPoint::new(ONE / 4 - 1, 1)));
}

#[test]
fn region_tests_reject_far_points_without_overflow() {
    for &pt in &[
        ComplexPoint::new(i64::MAX, i64::MAX),
        ComplexPoint::new(i64::MIN, i64::MIN),
        ComplexPoint::new(i64::MIN, 0),
        ComplexPoint::new(0, i64::MAX),
        ComplexPoint::new(ONE / 4 + ONE, 0),
        ComplexPoint::new(0, ONE),
    ] {
        assert!(!check_cardioid(pt));
        assert!(!check_period2_bulb(pt));
    }
}

#[test]
fn points_of_magnitude_above_two_escape_at_the_first_step() {
    for &(re, im) in &[(3.0, 0.0), (0.0, 2.5), (-2.1, 0.0), (1.5, 1.5), (-1.5, -1.4), (2.0, 0.001)] {
        let pt = point(re, im);
        for &max in &[2u32, 3, 50, 1000] {
            let r = eval_mandelbrot(pt, max);
            assert_eq!(r.iterations, 1);
            assert!(r.iterations < max);
            assert_eq!(r.z, pt);
        }
    }
    let far = ComplexPoint::new(i64::MIN, i64::MAX);
    assert_eq!(eval_mandelbrot(far, 10).iterations, 1);
    assert_eq!(eval_mandelbrot(far, 10).z, far);
}

#[test]
fn the_escape_measure_is_symmetric_about_the_real_axis() {
    let cfg = EvalConfig { bound_sq: SMOOTH_BOUND_SQ, short_circuit: false };
    let pt = ComplexPoint::new(957_325_490, 536_870_917);
    let up = Escape { iterations: 3, z: ComplexPoint::new(1_093_708_520, 4_829_672_301) };
    let down = Escape { iterations: 3, z: ComplexPoint::new(1_093_708_520, -4_829_672_301) };
    assert_eq!(eval_mandelbrot(pt, 50), up);
    assert_eq!(eval_mandelbrot(pt.conj(), 50), down);
    let mut im = -3 * ONE / 2;
    while im <= 3 * ONE / 2 {
        let mut re = -5 * ONE / 2;
        while re <= ONE {
            let up = ComplexPoint::new(re, im);
            let down = up.conj();
            for &max in &[1u32, 7, 60] {
                let a = eval_mandelbrot(up, max);
                let b = eval_mandelbrot(down, max);
                assert_eq!(a.iterations, b.iterations, "({}, {})", re, im);
                assert_eq!(a.z.conj(), b.z);
                let c = eval_mandelbrot_with(up, max, &cfg);
                let d = eval_mandelbrot_with(down, max, &cfg);
                assert_eq!(c.iterations, d.iterations, "({}, {})", re, im);
                assert_eq!(c.z.conj(), d.z);
            }
            re += 39_916_801;
        }
        im += 47_900_161;
    }
}

#[test]
fn a_budget_of_one_is_spent_by_the_first_step() {
    assert_eq!(eval_mandelbrot(point(3.0, 0.0), 1).iterations, 1);
    assert_eq!(eval_mandelbrot(point(3.0, 0.0), 0).iterations, 0);
}

#[test]
fn zero_budget_returns_zero_at_the_origin_of_the_orbit() {
    let r = eval_mandelbrot(point(1.0, 1.0), 0);
    assert_eq!(r.iterations, 0);
    assert_eq!(r.z, ComplexPoint::new(0, 0));
}

#[test]
fn orbit_of_one_leaves_the_disc_of_radius_two_at_step_three() {
    // 0 -> 1 -> 2 -> 5: the point 2 lies on the circle and is still inside.
    let r = eval_mandelbrot(point(1.0, 0.0), 50);
    assert_eq!(r.iterations, 3);
    assert_eq!(r.z, ComplexPoint::new(5 * ONE, 0));
    let short = eval_mandelbrot(point(1.0, 0.0), 2);
    assert_eq!(short.iterations, 2);
    assert_eq!(short.z, ComplexPoint::new(2 * ONE, 0));
}

#[test]
fn orbit_of_one_leaves_the_disc_of_radius_256_at_step_five() {
    // 0 -> 1 -> 2 -> 5 -> 26 -> 677.
    let cfg = EvalConfig { bound_sq: SMOOTH_BOUND_SQ, short_circuit: false };
    let r = eval_mandelbrot_with(point(1.0, 0.0), 50, &cfg);
    assert_eq!(r.iterations, 5);
    assert_eq!(r.z, ComplexPoint::new(677 * ONE, 0));
}

#[test]
fn orbit_of_i_is_periodic_and_never_escapes() {
    // 0 -> i -> -1+i -> -i -> -1+i -> ...
    let r = eval_mandelbrot(point(0.0, 1.0), 101);
    assert_eq!(r.iterations, 101);
    assert_eq!(r.z, ComplexPoint::new(0, -ONE));
    let even = eval_mandelbrot(point(0.0, 1.0), 100);
    assert_eq!(even.z, ComplexPoint::new(-ONE, ONE));
}

#[test]
fn without_the_short_circuit_the_origin_is_iterated() {
    let cfg = EvalConfig { bound_sq: DEFAULT_BOUND_SQ, short_circuit: false };
    let r = eval_mandelbrot_with(point(0.0, 0.0), 30, &cfg);
    assert_eq!(r.iterations, 30);
    assert_eq!(r.z, ComplexPoint::new(0, 0));
    let with = EvalConfig { bound_sq: DEFAULT_BOUND_SQ, short_circuit: true };
    assert_eq!(eval_mandelbrot_with(point(0.0, 0.0), 30, &with).iterations, 30);
}

#[test]
fn a_bound_of_zero_lets_only_the_origin_stay() {
    let cfg = EvalConfig { bound_sq: 0, short_circuit: false };
    assert_eq!(eval_mandelbrot_with(ComplexPoint::new(1, 0), 9, &cfg).iterations, 1);
    assert_eq!(eval_mandelbrot_with(ComplexPoint::new(0, 0), 9, &cfg).iterations, 9);
}

#[test]
fn escape_times_agree_with_floating_point_away_from_the_boundary() {
    let cfg = EvalConfig { bound_sq: DEFAULT_BOUND_SQ, short_circuit: false };
    for &(re, im) in &[(0.5, 0.5), (-1.5, 0.5), (0.3, 0.6), (-0.2, 1.0), (0.4, -0.3), (-1.8, 0.05), (0.26, 0.0)] {
        let want = float_escape_time(re, im, 40, 4.0);
        assert_eq!(eval_mandelbrot_with(point(re, im), 40, &cfg).iterations, want, "({}, {})", re, im);
    }
}

#[test]
fn julia_constant_is_minus_four_tenths_plus_six_tenths_i() {
    assert_eq!(JULIA_RE, fixed_of(-0.4));
    assert_eq!(JULIA_IM, fixed_of(0.6));
}

#[test]
fn julia_returns_zero_when_no_step_is_taken() {
    assert_eq!(eval_julia(point(3.0, 0.0), 50), 0);
    assert_eq!(eval_julia(point(0.0, 0.0), 0), 0);
    assert_eq!(eval_julia(ComplexPoint::new(i64::MIN, i64::MIN), 50), 0);
}

#[test]
fn julia_returns_the_index_of_the_last_step_inside() {
    // 2 lies on the circle: one step is taken, to 4 + c, which is outside.
    assert_eq!(eval_julia(point(2.0, 0.0), 50), 0);
    // 1.5 -> 1.85 + 0.6i, inside; -> 2.6625 + 2.82i, outside.
    assert_eq!(eval_julia(point(1.5, 0.0), 50), 1);
    assert_eq!(eval_julia(point(1.5, 0.0), 1), 0);
}

#[test]
fn julia_returns_budget_minus_one_when_the_orbit_stays() {
    // The orbit of 0 stays in the disc of radius 2 for 26 steps.
    for max in 1u32..=26 {
        assert_eq!(eval_julia(point(0.0, 0.0), max), max - 1);
    }
    assert_eq!(eval_julia(point(0.0, 0.0), 27), 25);
    assert_eq!(eval_julia(point(0.0, 0.0), 5000), 25);
}

#[test]
fn julia_agrees_with_floating_point_away_from_the_boundary() {
    for &(re, im, steps) in &[(0.1, 0.0, 23u32), (0.3, 0.3, 6), (-0.2, 0.2, 92), (0.5, 0.0, 29), (0.1, -0.3, 52)] {
        assert_eq!(eval_julia(point(re, im), 5000), steps - 1, "({}, {})", re, im);
    }
}

#[test]
fn intensity_is_the_share_of_the_budget() {
    assert_eq!(intensity(0, 50), 0);
    assert_eq!(intensity(25, 50), ONE / 2);
    assert_eq!(intensity(50, 50), ONE);
    assert_eq!(intensity(1, 3), ONE / 3);
    assert_eq!(intensity(2, 3), 715_827_882);
    assert_eq!(intensity(0, 0), 0);
    assert_eq!(intensity(7, 0), 0);
    assert_eq!(intensity(9, 3), ONE);
    assert_eq!(intensity(u32::MAX - 1, u32::MAX), 1_073_741_823);
}

#[test]
fn norm_and_step_of_a_point() {
    let z = point(3.0, -4.0);
    assert_eq!(z.norm_sqr(), 25u128 << 60);
    assert!(z.is_bounded(25));
    assert!(!z.is_bounded(24));
    assert_eq!(z.conj(), point(3.0, 4.0));
    // (3 - 4i)^2 + (1 + i) = -7 - 24i + 1 + i = -6 - 23i.
    assert_eq!(z.square_plus(&point(1.0, 1.0)), point(-6.0, -23.0));
    // Squares are rounded toward zero: (2^-30)^2 and -(2^-30)^2 are both below one unit.
    assert_eq!(ComplexPoint::new(1, 0).square_plus(&ComplexPoint::new(0, 0)), ComplexPoint::new(0, 0));
    assert_eq!(ComplexPoint::new(0, 1).square_plus(&ComplexPoint::new(0, 0)), ComplexPoint::new(0, 0));
    // (3 + 2^-30 i)^2 = 9 - 2^-60 + 6 * 2^-30 i, and the mirror image for the mirrored point.
    let zero = ComplexPoint::new(0, 0);
    assert_eq!(ComplexPoint::new(3 * ONE, 1).square_plus(&zero), ComplexPoint::new(9 * ONE - 1, 6));
    assert_eq!(ComplexPoint::new(3 * ONE, -1).square_plus(&zero), ComplexPoint::new(9 * ONE - 1, -6));
    // 2 * (1/2 + 2^-30) * 2^-30 = 2^-30 + 2^-59: the cross term is cut to one unit on both sides.
    assert_eq!(ComplexPoint::new(ONE / 2 + 1, 1).square_plus(&zero), ComplexPoint::new(ONE / 4 + 1, 1));
    assert_eq!(ComplexPoint::new(ONE / 2 + 1, -1).square_plus(&zero), ComplexPoint::new(ONE / 4 + 1, -1));
    assert_eq!(ComplexPoint::new(-ONE / 2 - 1, 1).square_plus(&zero), ComplexPoint::new(ONE / 4 + 1, -1));
    assert_eq!(ComplexPoint::new(i64::MIN, i64::MIN).norm_sqr(), 1u128 << 127);
}
