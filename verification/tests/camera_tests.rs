use fractal::camera::{Camera, PixelSize, CAMERA_LIMIT, MAX_ZOOM, MIN_ZOOM};
use fractal::complex::ComplexPoint;
use fractal::fixed::ONE;

fn origin_camera(zoom: i32) -> Camera {
    Camera::new(ComplexPoint::new(0, 0), zoom).unwrap()
}

fn scan(origin: ComplexPoint, size: &PixelSize, x: u32, y: u32) -> (i128, i128) {
    (origin.re as i128 + size.offset(x), origin.im as i128 + size.offset(y))
}

#[test]
fn zoom_is_a_power_of_two_scale() {
    assert_eq!(origin_camera(0).scale(), ONE);
    assert_eq!(origin_camera(-1).scale(), 2 * ONE);
    assert_eq!(origin_camera(1).scale(), ONE / 2);
    assert_eq!(origin_camera(MAX_ZOOM).scale(), 1);
    assert_eq!(origin_camera(MIN_ZOOM).scale(), CAMERA_LIMIT);
    assert_eq!(origin_camera(3).center(), ComplexPoint::new(0, 0));
}

#[test]
fn camera_out_of_range_is_refused() {
    let zero = ComplexPoint::new(0, 0);
    assert!(Camera::new(zero, MAX_ZOOM + 1).is_none());
    assert!(Camera::new(zero, MIN_ZOOM - 1).is_none());
    assert!(Camera::new(zero, i32::MAX).is_none());
    assert!(Camera::new(zero, i32::MIN).is_none());
    assert!(Camera::new(ComplexPoint::new(CAMERA_LIMIT + 1, 0), 0).is_none());
    assert!(Camera::new(ComplexPoint::new(0, -CAMERA_LIMIT - 1), 0).is_none());
    assert!(Camera::new(ComplexPoint::new(CAMERA_LIMIT, -CAMERA_LIMIT), 0).is_some());
    assert!(Camera::with_scale(zero, 0).is_none());
    assert!(Camera::with_scale(zero, -5).is_none());
    assert!(Camera::with_scale(zero, CAMERA_LIMIT + 1).is_none());
    assert_eq!(Camera::with_scale(zero, 12345).unwrap().scale(), 12345);
}

#[test]
fn transform_centres_pixels_in_a_square_grid() {
    let cam = origin_camera(0);
    // Four pixels span [-1, 1): centres at -0.75, -0.25, 0.25, 0.75.
    assert_eq!(cam.transform(0, 0, 4, 4), ComplexPoint::new(-3 * ONE / 4, -3 * ONE / 4));
    assert_eq!(cam.transform(1, 2, 4, 4), ComplexPoint::new(-ONE / 4, ONE / 4));
    assert_eq!(cam.transform(3, 3, 4, 4), ComplexPoint::new(3 * ONE / 4, 3 * ONE / 4));
    assert_eq!(cam.transform(0, 0, 1, 1), ComplexPoint::new(0, 0));
}

#[test]
fn transform_keeps_pixels_square_in_a_wide_grid() {
    let cam = origin_camera(0);
    // The longer side spans [-1, 1); the shorter one half of it.
    assert_eq!(cam.transform(0, 0, 8, 4), ComplexPoint::new(-7 * ONE / 8, -3 * ONE / 8));
    assert_eq!(cam.transform(7, 3, 8, 4), ComplexPoint::new(7 * ONE / 8, 3 * ONE / 8));
    assert_eq!(cam.transform(0, 0, 4, 8), ComplexPoint::new(-3 * ONE / 8, -7 * ONE / 8));
    assert_eq!(cam.transform(3, 7, 4, 8), ComplexPoint::new(3 * ONE / 8, 7 * ONE / 8));
}

#[test]
fn transform_scales_by_zoom_and_offsets_by_center() {
    let center = ComplexPoint::new(-644_245_094, ONE / 8);
    let cam = Camera::new(center, -1).unwrap();
    let p = cam.transform(0, 3, 4, 4);
    assert_eq!(p, ComplexPoint::new(center.re - 3 * ONE / 2, center.im + 3 * ONE / 2));
    let near = Camera::new(center, 2).unwrap();
    assert_eq!(near.transform(2, 1, 4, 4), ComplexPoint::new(center.re + ONE / 16, center.im - ONE / 16));
}

#[test]
fn transform_rounds_down_once() {
    let cam = origin_camera(0);
    // 2^30 * (2x + 1 - 3) / 3 for x = 0, 1, 2.
    assert_eq!(cam.transform(0, 1, 3, 3), ComplexPoint::new(-715_827_883, 0));
    assert_eq!(cam.transform(2, 2, 3, 3), ComplexPoint::new(715_827_882, 715_827_882));
}

#[test]
fn origin_and_pixel_size_match_transform_exactly_for_powers_of_two() {
    let cam = origin_camera(0);
    for &side in &[1u32, 2, 16, 64, 1024] {
        let (origin, size) = cam.find_origin_and_pixel_size(side, side);
        assert_eq!(origin, cam.transform(0, 0, side, side));
        assert_eq!(size.span, 2 * ONE);
        assert_eq!(size.cells, side);
        for x in 0..side.min(64) {
            for y in 0..side.min(64) {
                let p = cam.transform(x, y, side, side);
                assert_eq!(scan(origin, &size, x, y), (p.re as i128, p.im as i128));
            }
        }
    }
}

#[test]
fn origin_and_pixel_size_match_transform_within_one_unit() {
    let cases = [
        (0i32, 0i64, 0i64, 100u32, 100u32),
        (0, 0, 0, 7, 7),
        (-1, -644_245_094, 0, 64, 48),
        (5, 123_456_789, -987_654_321, 30, 77),
        (29, 17, -5, 13, 9),
        (-31, 0, 0, 9, 9),
    ];
    for &(zoom, re, im, w, h) in &cases {
        let cam = Camera::new(ComplexPoint::new(re, im), zoom).unwrap();
        let (origin, size) = cam.find_origin_and_pixel_size(w, h);
        assert_eq!(size.cells, w.max(h));
        assert_eq!(size.span, 2 * cam.scale());
        for x in 0..w {
            for y in 0..h {
                let p = cam.transform(x, y, w, h);
                let (sr, si) = scan(origin, &size, x, y);
                let dr = p.re as i128 - sr;
                let di = p.im as i128 - si;
                assert!(dr == 0 || dr == 1, "re differs by {}", dr);
                assert!(di == 0 || di == 1, "im differs by {}", di);
            }
        }
    }
}

#[test]
fn pixel_offset_is_rounded_down() {
    let size = PixelSize { span: 10, cells: 4 };
    assert_eq!(size.offset(0), 0);
    assert_eq!(size.offset(1), 2);
    assert_eq!(size.offset(2), 5);
    assert_eq!(size.offset(3), 7);
    let back = PixelSize { span: -10, cells: 4 };
    assert_eq!(back.offset(1), -3);
}

#[test]
fn to_discrete_inverts_transform() {
    for &(zoom, w, h) in &[(0i32, 64u32, 64u32), (-1, 16, 9), (3, 5, 40), (10, 100, 1)] {
        let cam = Camera::new(ComplexPoint::new(-644_245_094, 12_345), zoom).unwrap();
        for x in 0..w {
            for y in 0..h {
                assert_eq!(cam.to_discrete(cam.transform(x, y, w, h), w, h), Some((x, y)));
            }
        }
    }
}

#[test]
fn to_discrete_maps_each_cell_to_its_pixel() {
    let cam = origin_camera(0);
    // Four pixels span [-1, 1): each is half a unit wide.
    assert_eq!(cam.to_discrete(ComplexPoint::new(-ONE, -ONE), 4, 4), Some((0, 0)));
    assert_eq!(cam.to_discrete(ComplexPoint::new(-ONE / 2 - 1, 0), 4, 4), Some((0, 2)));
    assert_eq!(cam.to_discrete(ComplexPoint::new(-ONE / 2, -1), 4, 4), Some((1, 1)));
    assert_eq!(cam.to_discrete(ComplexPoint::new(ONE - 1, ONE - 1), 4, 4), Some((3, 3)));
    // The shorter side of a wide grid spans [-0.5, 0.5).
    assert_eq!(cam.to_discrete(ComplexPoint::new(0, -ONE / 2), 8, 4), Some((4, 0)));
    assert_eq!(cam.to_discrete(ComplexPoint::new(0, ONE / 2 - 1), 8, 4), Some((4, 3)));
}

#[test]
fn to_discrete_drops_points_outside_the_grid() {
    let cam = origin_camera(0);
    assert_eq!(cam.to_discrete(ComplexPoint::new(ONE, 0), 4, 4), None);
    assert_eq!(cam.to_discrete(ComplexPoint::new(-ONE - 1, 0), 4, 4), None);
    assert_eq!(cam.to_discrete(ComplexPoint::new(0, ONE), 4, 4), None);
    assert_eq!(cam.to_discrete(ComplexPoint::new(0, -ONE - 1), 4, 4), None);
    assert_eq!(cam.to_discrete(ComplexPoint::new(0, ONE / 2), 8, 4), None);
    assert_eq!(cam.to_discrete(ComplexPoint::new(0, -ONE / 2 - 1), 8, 4), None);
    assert_eq!(cam.to_discrete(ComplexPoint::new(i64::MAX, i64::MIN), 4, 4), None);
    assert_eq!(cam.to_discrete(ComplexPoint::new(i64::MIN, i64::MAX), u32::MAX, u32::MAX), None);
}
