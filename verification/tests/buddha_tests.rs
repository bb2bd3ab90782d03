use fractal::buddha::{
    density_levels, emit_mandelbrot_trajectory, make_buddha, make_hist, make_hist_with_workers, make_render,
    record_sample, record_trajectory, Band, RenderMode, SamplerConfig,
};
use fractal::camera::Camera;
use fractal::complex::ComplexPoint;
use fractal::error::ConfigError;
use fractal::fixed::ONE;
use fractal::fractal::eval_mandelbrot;
use fractal::histogram::{init_hist, Histogram, Normalization};

fn seed(re: f64, im: f64) -> ComplexPoint {
    ComplexPoint::new((re * (ONE as f64)).round() as i64, (im * (ONE as f64)).round() as i64)
}

fn wide_camera() -> Camera {
    // The longer side spans [-2, 2).
    Camera::new(ComplexPoint::new(0, 0), -1).unwrap()
}

fn counts(hist: &Histogram) -> Vec<Vec<u32>> {
    (0..hist.height()).map(|y| (0..hist.width()).map(|x| hist.get(x, y).unwrap()).collect()).collect()
}

fn total(hist: &Histogram) -> u64 {
    counts(hist).iter().flatten().map(|&c| c as u64).sum()
}

#[test]
fn a_seed_escaping_at_step_k_yields_k_points() {
    // 0 -> 1 -> 2 -> 5 escapes at step 3.
    let traj = emit_mandelbrot_trajectory(seed(1.0, 0.0), 50, 1, false);
    assert_eq!(traj, vec![seed(1.0, 0.0), seed(2.0, 0.0), seed(5.0, 0.0)]);
    assert_eq!(traj.len() as u32, eval_mandelbrot(seed(1.0, 0.0), 50).iterations);
    let at_min = emit_mandelbrot_trajectory(seed(1.0, 0.0), 50, 3, false);
    assert_eq!(at_min.len(), 3);
    let tight = emit_mandelbrot_trajectory(seed(1.0, 0.0), 4, 3, false);
    assert_eq!(tight.len(), 3);
}

#[test]
fn a_mirrored_trajectory_has_twice_as_many_points() {
    // 0 -> 0.5 + 0.5i -> 0.5 + i -> -0.25 + 1.5i -> -1.6875 - 0.25i -> 3.285... escapes at step 5.
    let c = seed(0.5, 0.5);
    let plain = emit_mandelbrot_trajectory(c, 50, 1, false);
    let mirrored = emit_mandelbrot_trajectory(c, 50, 1, true);
    assert_eq!(plain.len(), 5);
    assert_eq!(mirrored.len(), 10);
    assert_eq!(&plain[..4], &[seed(0.5, 0.5), seed(0.5, 1.0), seed(-0.25, 1.5), seed(-1.6875, -0.25)]);
    for (i, p) in plain.iter().enumerate() {
        assert_eq!(mirrored[2 * i], *p);
        assert_eq!(mirrored[2 * i + 1], ComplexPoint::new(p.re, -p.im));
    }
}

#[test]
fn a_seed_escaping_below_the_minimum_yields_nothing() {
    assert!(emit_mandelbrot_trajectory(seed(1.0, 0.0), 50, 4, false).is_empty());
    assert!(emit_mandelbrot_trajectory(seed(1.0, 0.0), 50, 4, true).is_empty());
    assert!(emit_mandelbrot_trajectory(seed(3.0, 0.0), 50, 2, true).is_empty());
}

#[test]
fn a_seed_that_never_escapes_yields_nothing() {
    // In the main cardioid, in the period-2 bulb, and on a bounded orbit outside both.
    for &(re, im) in &[(0.0, 0.0), (-1.0, 0.0), (0.0, 1.0)] {
        assert!(emit_mandelbrot_trajectory(seed(re, im), 200, 0, false).is_empty());
        assert!(emit_mandelbrot_trajectory(seed(re, im), 200, 0, true).is_empty());
    }
    // The budget is spent at the step at which the orbit would leave.
    assert!(emit_mandelbrot_trajectory(seed(1.0, 0.0), 3, 0, false).is_empty());
    assert!(emit_mandelbrot_trajectory(seed(1.0, 0.0), 0, 0, false).is_empty());
}

#[test]
fn a_far_seed_yields_itself() {
    let far = ComplexPoint::new(i64::MAX, i64::MIN + 1);
    assert_eq!(emit_mandelbrot_trajectory(far, 9, 0, false), vec![far]);
    assert_eq!(emit_mandelbrot_trajectory(far, 9, 1, true), vec![far, ComplexPoint::new(i64::MAX, i64::MAX)]);
}

#[test]
fn sampler_configuration_is_validated() {
    assert_eq!(SamplerConfig::new(0, 4, 1, 10, false).err(), Some(ConfigError::EmptyGrid));
    assert_eq!(SamplerConfig::new(4, 0, 1, 10, false).err(), Some(ConfigError::EmptyGrid));
    assert_eq!(SamplerConfig::new(0, 0, 10, 10, false).err(), Some(ConfigError::EmptyGrid));
    assert_eq!(SamplerConfig::new(4, 4, 10, 10, false).err(), Some(ConfigError::MinNotBelowMax));
    assert_eq!(SamplerConfig::new(4, 4, 11, 10, true).err(), Some(ConfigError::MinNotBelowMax));
    let cfg = SamplerConfig::new(4, 3, 2, 10, true).unwrap();
    assert_eq!(
        (cfg.width(), cfg.height(), cfg.min_iterations(), cfg.max_iterations(), cfg.mirror()),
        (4, 3, 2, 10, true)
    );
}

#[test]
fn trajectory_points_are_counted_in_their_pixels() {
    let cam = wide_camera();
    let mut hist = init_hist(4, 4).unwrap();
    // Pixels are one unit wide: 1 lies in column 3, 2 and 5 outside; 0 in row 2.
    record_trajectory(&cam, &mut hist, &vec![seed(1.0, 0.0), seed(2.0, 0.0), seed(5.0, 0.0)]);
    assert_eq!(counts(&hist), vec![vec![0, 0, 0, 0], vec![0, 0, 0, 0], vec![0, 0, 0, 1], vec![0, 0, 0, 0]]);
    record_trajectory(&cam, &mut hist, &vec![seed(1.5, 0.5), seed(-2.0, -2.0), seed(-0.5, 1.99), seed(1.0, 0.0)]);
    assert_eq!(counts(&hist), vec![vec![1, 0, 0, 0], vec![0, 0, 0, 0], vec![0, 0, 0, 3], vec![0, 1, 0, 0]]);
    record_trajectory(&cam, &mut hist, &vec![]);
    assert_eq!(total(&hist), 5);
}

#[test]
fn a_sample_records_the_trajectory_of_its_seed() {
    let cam = wide_camera();
    let cfg = SamplerConfig::new(4, 4, 1, 50, false).unwrap();
    // Pixel (3, 2) has the seed 1.5 + 0.5i, which escapes at step 2: 1.5 + 0.5i, 3.5 + 2i.
    let mut hist = init_hist(4, 4).unwrap();
    record_sample(&cam, &cfg, &mut hist, 3, 2);
    assert_eq!(counts(&hist), vec![vec![0, 0, 0, 0], vec![0, 0, 0, 0], vec![0, 0, 0, 1], vec![0, 0, 0, 0]]);
    // Drawn numbers are reduced modulo the sides.
    let mut wrapped = init_hist(4, 4).unwrap();
    record_sample(&cam, &cfg, &mut wrapped, 7, 4_000_000_002);
    assert_eq!(counts(&wrapped), counts(&hist));
    // Pixel (1, 2) has the seed -0.5 + 0.5i in the main cardioid: nothing is recorded.
    let mut inside = init_hist(4, 4).unwrap();
    record_sample(&cam, &cfg, &mut inside, 1, 2);
    assert_eq!(total(&inside), 0);
}

#[test]
fn a_mirrored_sample_records_both_halves() {
    let cam = wide_camera();
    let cfg = SamplerConfig::new(4, 4, 1, 50, true).unwrap();
    let mut hist = init_hist(4, 4).unwrap();
    record_sample(&cam, &cfg, &mut hist, 3, 2);
    // 1.5 + 0.5i in row 2 and its mirror image 1.5 - 0.5i in row 1.
    assert_eq!(counts(&hist), vec![vec![0, 0, 0, 0], vec![0, 0, 0, 1], vec![0, 0, 0, 1], vec![0, 0, 0, 0]]);
}

#[test]
fn a_sample_outside_the_band_records_nothing() {
    let cam = wide_camera();
    let cfg = SamplerConfig::new(8, 8, 3, 12, false).unwrap();
    let mut accepted = 0;
    for x in 0..8 {
        for y in 0..8 {
            let mut hist = init_hist(8, 8).unwrap();
            record_sample(&cam, &cfg, &mut hist, x, y);
            let k = eval_mandelbrot(cam.transform(x, y, 8, 8), 12).iterations;
            if k < 3 || k >= 12 {
                assert_eq!(total(&hist), 0, "pixel ({}, {}) escapes at {}", x, y, k);
            } else {
                // The points before the last lie in the disc of radius 2 and so in the
                // grid; the last one lies outside the disc, in the grid or not.
                let n = total(&hist);
                assert!(n == (k - 1) as u64 || n == k as u64, "pixel ({}, {}) escapes at {}", x, y, k);
                accepted += 1;
            }
        }
    }
    assert!(accepted > 0);
}

#[test]
fn samples_agree_with_trajectories_recorded_by_hand() {
    let cam = Camera::new(seed(-0.5, 0.0), -1).unwrap();
    let cfg = SamplerConfig::new(24, 16, 2, 60, true).unwrap();
    let mut by_samples = init_hist(24, 16).unwrap();
    let mut by_hand = init_hist(24, 16).unwrap();
    for x in 0..24 {
        for y in 0..16 {
            record_sample(&cam, &cfg, &mut by_samples, x, y);
            let traj = emit_mandelbrot_trajectory(cam.transform(x, y, 24, 16), 60, 2, true);
            for p in traj {
                if let Some((px, py)) = cam.to_discrete(p, 24, 16) {
                    by_hand.record(px, py);
                }
            }
        }
    }
    assert_eq!(counts(&by_samples), counts(&by_hand));
    assert!(total(&by_samples) > 0);
    // A mirrored histogram is symmetric about the real axis.
    let grid = counts(&by_samples);
    for y in 0..16 {
        assert_eq!(grid[y], grid[15 - y]);
    }
}

#[test]
fn no_samples_leave_the_histogram_empty() {
    let cfg = SamplerConfig::new(8, 6, 1, 50, true).unwrap();
    let hist = make_hist(&wide_camera(), &cfg, 0);
    assert_eq!((hist.width(), hist.height()), (8, 6));
    assert_eq!(total(&hist), 0);
}

#[test]
fn random_samples_fill_the_histogram_within_bounds() {
    let cam = Camera::new(seed(-0.5, 0.0), -1).unwrap();
    let cfg = SamplerConfig::new(32, 32, 2, 40, false).unwrap();
    let hist = make_hist(&cam, &cfg, 4000);
    assert_eq!((hist.width(), hist.height()), (32, 32));
    // Each sample leaves fewer than 40 points; with 4000 samples some seed is accepted.
    assert!(total(&hist) > 0);
    assert!(total(&hist) < 4000 * 40);
    // What random samples leave, the samples of all pixels can leave: no count lies
    // outside the cells that the trajectories of the grid's seeds reach.
    let mut reach = init_hist(32, 32).unwrap();
    for x in 0..32 {
        for y in 0..32 {
            record_sample(&cam, &cfg, &mut reach, x, y);
        }
    }
    for x in 0..32 {
        for y in 0..32 {
            if reach.get(x, y) == Some(0) {
                assert_eq!(hist.get(x, y), Some(0));
            }
        }
    }
}

#[test]
fn workers_record_their_shares_in_histograms_that_are_merged() {
    let cam = Camera::new(seed(-0.5, 0.0), -1).unwrap();
    let cfg = SamplerConfig::new(32, 32, 2, 40, true).unwrap();
    let mut reach = init_hist(32, 32).unwrap();
    for x in 0..32 {
        for y in 0..32 {
            record_sample(&cam, &cfg, &mut reach, x, y);
        }
    }
    for workers in [0usize, 1, 2, 5] {
        let hist = make_hist_with_workers(&cam, &cfg, 3000, workers);
        assert_eq!((hist.width(), hist.height()), (32, 32));
        assert!(total(&hist) > 0);
        assert!(total(&hist) < 3000 * 80);
        for x in 0..32 {
            for y in 0..32 {
                if reach.get(x, y) == Some(0) {
                    assert_eq!(hist.get(x, y), Some(0));
                }
            }
        }
    }
    assert_eq!(total(&make_hist_with_workers(&cam, &cfg, 0, 4)), 0);
}

#[test]
fn merging_adds_the_counters_cell_by_cell() {
    let mut a = init_hist(3, 2).unwrap();
    let mut b = init_hist(3, 2).unwrap();
    a.record(0, 0);
    a.record(2, 1);
    a.record(2, 1);
    b.record(2, 1);
    b.record(1, 0);
    let sum = a.merged(&b);
    assert_eq!(counts(&sum), vec![vec![1, 1, 0], vec![0, 0, 3]]);
    assert_eq!(counts(&b.merged(&a)), counts(&sum));
    assert_eq!(counts(&a.merged(&init_hist(3, 2).unwrap())), counts(&a));
}

#[test]
fn density_levels_are_validated_and_shaped() {
    let cam = wide_camera();
    let ok = Band { min_iterations: 1, max_iterations: 30 };
    let bad = Band { min_iterations: 30, max_iterations: 30 };
    assert_eq!(density_levels(&cam, 0, 3, ok, true, 5, Normalization::Linear, 2).err(), Some(ConfigError::EmptyGrid));
    assert_eq!(
        density_levels(&cam, 3, 3, bad, true, 5, Normalization::Linear, 2).err(),
        Some(ConfigError::MinNotBelowMax)
    );
    let levels = density_levels(&cam, 5, 3, ok, true, 0, Normalization::Equalized, 2).unwrap();
    assert_eq!(levels, vec![vec![0u8; 5]; 3]);
}

#[test]
fn render_refuses_bad_configurations() {
    let cam = wide_camera();
    let ok = Band { min_iterations: 1, max_iterations: 30 };
    let bad = Band { min_iterations: 5, max_iterations: 5 };
    let grey = RenderMode::Greyscale(ok);
    let lin = Normalization::Linear;
    assert_eq!(make_render(&cam, 0, 4, 1, grey, true, lin, 1).err(), Some(ConfigError::EmptyGrid));
    assert_eq!(make_render(&cam, 4, 0, 1, grey, true, lin, 1).err(), Some(ConfigError::EmptyGrid));
    assert_eq!(make_render(&cam, 0x4000_0000, 1, 1, grey, true, lin, 1).err(), Some(ConfigError::GridTooLarge));
    assert_eq!(make_render(&cam, 40_000, 40_000, 1, grey, true, lin, 1).err(), Some(ConfigError::GridTooLarge));
    assert_eq!(
        make_render(&cam, 4, 4, 1, RenderMode::Greyscale(bad), true, lin, 1).err(),
        Some(ConfigError::MinNotBelowMax)
    );
    for mode in [RenderMode::Rgb(bad, ok, ok), RenderMode::Rgb(ok, bad, ok), RenderMode::Rgb(ok, ok, bad)] {
        assert_eq!(make_render(&cam, 4, 4, 1, mode, true, lin, 1).err(), Some(ConfigError::MinNotBelowMax));
    }
    assert_eq!(make_buddha(&cam, 0, 0, 1, 1).err(), Some(ConfigError::EmptyGrid));
    assert_eq!(make_buddha(&cam, 0x4000_0000, 4, 1, 1).err(), Some(ConfigError::GridTooLarge));
}

#[test]
fn a_greyscale_rendering_is_grey() {
    let cam = Camera::new(seed(-0.5, 0.0), -1).unwrap();
    let band = Band { min_iterations: 2, max_iterations: 40 };
    for policy in [Normalization::Linear, Normalization::Equalized] {
        let img = make_render(&cam, 24, 16, 3000, RenderMode::Greyscale(band), true, policy, 3).unwrap();
        assert_eq!((img.get_width(), img.get_height()), (24, 16));
        let mut brightest = 0u8;
        for x in 0..24 {
            for y in 0..16 {
                let p = img.get_pixel(x, y);
                assert_eq!((p.r, p.g), (p.g, p.b));
                brightest = brightest.max(p.r);
            }
        }
        // The most visited pixel is shown at full brightness.
        assert_eq!(brightest, 255);
    }
}

#[test]
fn a_rendering_without_samples_is_black() {
    let cam = wide_camera();
    let band = Band { min_iterations: 1, max_iterations: 30 };
    let img = make_render(&cam, 6, 5, 0, RenderMode::Rgb(band, band, band), false, Normalization::Equalized, 2).unwrap();
    assert_eq!((img.get_width(), img.get_height()), (6, 5));
    for x in 0..6 {
        for y in 0..5 {
            let p = img.get_pixel(x, y);
            assert_eq!((p.r, p.g, p.b), (0, 0, 0));
        }
    }
    let buddha = make_buddha(&cam, 4, 4, 3, 2).unwrap();
    assert_eq!((buddha.get_width(), buddha.get_height()), (4, 4));
}
