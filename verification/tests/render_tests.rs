use fractal::camera::Camera;
use fractal::complex::ComplexPoint;
use fractal::error::ConfigError;
use fractal::fixed::ONE;
use fractal::fractal::{eval_julia, eval_mandelbrot, eval_mandelbrot_with, intensity, Escape, EvalConfig};
use fractal::gradient::{Color, Gradient, Stop};
use fractal::image::fits_image;
use fractal::render::{eval_intensity, make_channels_image, make_image, make_plot, render_direct, Fractal};

fn part(v: f64) -> i64 {
    (v * (ONE as f64)).round() as i64
}

fn rainbow() -> Gradient {
    Gradient::new(
        Color::new(0, 0, 0),
        vec![
            Stop::new(part(0.025), Color::new(255, 0, 0)),
            Stop::new(part(0.05), Color::new(255, 255, 0)),
            Stop::new(part(0.1), Color::new(0, 255, 0)),
            Stop::new(part(0.105), Color::new(0, 255, 255)),
            Stop::new(part(0.15), Color::new(0, 0, 255)),
            Stop::new(part(0.25), Color::new(0, 255, 0)),
            Stop::new(part(0.3), Color::new(255, 255, 0)),
            Stop::new(part(0.35), Color::new(255, 0, 0)),
        ],
    )
    .unwrap()
}

#[test]
fn every_pixel_of_a_direct_rendering_is_the_gradient_at_the_escape_measure() {
    let cam = Camera::new(ComplexPoint::new(part(-0.6), 0), -1).unwrap();
    let grad = rainbow();
    let img = render_direct(&cam, &grad, Fractal::Mandelbrot, 64, 64, 50, 4).unwrap();
    assert_eq!((img.get_width(), img.get_height()), (64, 64));
    let mut escaped = 0;
    for x in 0..64 {
        for y in 0..64 {
            let e = eval_mandelbrot(cam.transform(x, y, 64, 64), 50);
            if e.iterations < 50 {
                escaped += 1;
            }
            let want = grad.get_color(intensity(e.iterations, 50));
            let got = img.get_pixel(x, y);
            assert_eq!((got.r, got.g, got.b), (want.r, want.g, want.b), "pixel ({}, {})", x, y);
        }
    }
    assert!(escaped > 1000 && escaped < 64 * 64 - 100);
}

#[test]
fn a_direct_rendering_does_not_depend_on_workers_or_cache() {
    let cam = Camera::new(ComplexPoint::new(part(-0.6), 0), -1).unwrap();
    let plain = render_direct(&cam, &rainbow(), Fractal::Mandelbrot, 40, 30, 50, 1).unwrap();
    let many = render_direct(&cam, &rainbow(), Fractal::Mandelbrot, 40, 30, 50, 7).unwrap();
    assert!(plain == many);
}

#[test]
fn a_direct_julia_rendering_uses_the_julia_index() {
    let cam = Camera::new(ComplexPoint::new(0, 0), -1).unwrap();
    let grad = rainbow().build_cache(1000);
    let img = render_direct(&cam, &grad, Fractal::Julia, 20, 12, 30, 2).unwrap();
    for x in 0..20 {
        for y in 0..12 {
            let pt = cam.transform(x, y, 20, 12);
            let want = grad.get_color(intensity(eval_julia(pt, 30), 30));
            let got = img.get_pixel(x, y);
            assert_eq!((got.r, got.g, got.b), (want.r, want.g, want.b));
            assert_eq!(eval_intensity(Fractal::Julia, pt, 30), intensity(eval_julia(pt, 30), 30));
            assert_eq!(eval_intensity(Fractal::Mandelbrot, pt, 30), intensity(eval_mandelbrot(pt, 30).iterations, 30));
        }
    }
}

#[test]
fn a_direct_rendering_refuses_bad_grids() {
    let cam = Camera::new(ComplexPoint::new(0, 0), 0).unwrap();
    let grad = rainbow();
    assert_eq!(render_direct(&cam, &grad, Fractal::Julia, 0, 5, 9, 1).err(), Some(ConfigError::EmptyGrid));
    assert_eq!(render_direct(&cam, &grad, Fractal::Julia, 5, 0, 9, 1).err(), Some(ConfigError::EmptyGrid));
    assert_eq!(
        render_direct(&cam, &grad, Fractal::Mandelbrot, 50_000, 50_000, 9, 1).err(),
        Some(ConfigError::GridTooLarge)
    );
}

#[test]
fn a_plot_holds_the_evaluation_at_each_pixel() {
    let cam = Camera::new(ComplexPoint::new(part(-0.6), 0), 0).unwrap();
    let cfg = EvalConfig { bound_sq: 65536, short_circuit: false };
    let eval = move |pt: ComplexPoint, max: u32| eval_mandelbrot_with(pt, max, &cfg);
    let plot: Vec<Vec<Escape>> = make_plot(&cam, &eval, 9, 5, 25, 3).unwrap();
    assert_eq!(plot.len(), 5);
    for y in 0..5u32 {
        assert_eq!(plot[y as usize].len(), 9);
        for x in 0..9u32 {
            assert_eq!(plot[y as usize][x as usize], eval_mandelbrot_with(cam.transform(x, y, 9, 5), 25, &cfg));
        }
    }
    let points = make_plot(&cam, &|pt: ComplexPoint, _max: u32| pt, 3, 2, 0, 1).unwrap();
    assert_eq!(points[1][2], cam.transform(2, 1, 3, 2));
    let never = |_pt: ComplexPoint, _max: u32| -> u8 { panic!("called on a grid without cells") };
    assert_eq!(make_plot(&cam, &never, 0, 0, 25, 3).err(), Some(ConfigError::EmptyGrid));
    assert_eq!(make_plot(&cam, &never, 4, 0, 25, 1).err(), Some(ConfigError::EmptyGrid));
    assert_eq!(make_plot(&cam, &never, 0, 4, 25, 2).err(), Some(ConfigError::EmptyGrid));
}

#[test]
fn an_image_shows_the_gradient_at_each_intensity() {
    let grad = rainbow();
    let plot = vec![vec![0, ONE / 4, ONE / 2], vec![ONE, part(0.0375), part(0.2)]];
    let img = make_image(&plot, &grad, 3, 2);
    assert_eq!((img.get_width(), img.get_height()), (3, 2));
    for y in 0..2u32 {
        for x in 0..3u32 {
            let want = grad.get_color(plot[y as usize][x as usize]);
            let got = img.get_pixel(x, y);
            assert_eq!((got.r, got.g, got.b), (want.r, want.g, want.b));
        }
    }
    let p = img.get_pixel(1, 0);
    assert_eq!((p.r, p.g, p.b), (0, 255, 0));
}

#[test]
fn channels_are_placed_by_column_and_row() {
    let red = vec![vec![1u8, 2, 3], vec![4, 5, 6]];
    let green = vec![vec![11u8, 12, 13], vec![14, 15, 16]];
    let blue = vec![vec![21u8, 22, 23], vec![24, 25, 26]];
    let img = make_channels_image(&red, &green, &blue, 3, 2);
    assert_eq!((img.get_width(), img.get_height()), (3, 2));
    for y in 0..2u32 {
        for x in 0..3u32 {
            let p = img.get_pixel(x, y);
            let i = (y * 3 + x) as u8;
            assert_eq!((p.r, p.g, p.b), (1 + i, 11 + i, 21 + i));
        }
    }
}

#[test]
fn image_sizes_are_bounded_by_the_file_header() {
    assert!(fits_image(0, 0));
    assert!(fits_image(6400, 3600));
    assert!(fits_image(0x3fff_fff0, 0));
    assert!(!fits_image(0x3fff_fff1, 0));
    assert!(fits_image(1, 214_748_362));
    assert!(!fits_image(1, 214_748_363));
    assert!(!fits_image(40_000, 40_000));
    assert!(!fits_image(u32::MAX, u32::MAX));
}
