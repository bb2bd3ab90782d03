//! The view of the complex plane: pixel coordinates to plane points and back.

use vstd::prelude::*;
use vstd::arithmetic::div_mod::{lemma_fundamental_div_mod, lemma_fundamental_div_mod_converse, lemma_mod_bound};
use vstd::arithmetic::power2::{lemma2_to64, lemma2_to64_rest, lemma_pow2_strictly_increases, lemma_pow2_unfold, pow2};
use crate::complex::{ComplexPoint, PlanePoint};
use crate::fixed::{div_floor, FRAC_BITS};

verus! {

/// Largest magnitude of a camera's centre coordinates, and largest scale: 2^61 units.
pub const CAMERA_LIMIT: i64 = 0x2000_0000_0000_0000;

/// Smallest zoom level that `Camera::new` accepts.
pub const MIN_ZOOM: i32 = -31;

/// Largest zoom level that `Camera::new` accepts.
pub const MAX_ZOOM: i32 = 30;

/// A view of the complex plane: its centre and half the extent of its longer side.
#[derive(Clone, Copy, Debug, PartialEq, Eq)]
pub struct Camera {
    center: ComplexPoint,
    scale: i64,
}

/// The exact size of one pixel: `span / cells` units.
#[derive(Clone, Copy, Debug, PartialEq, Eq, Structural)]
pub struct PixelSize {
    /// Extent of the longer side of the view, in units of 2^-30.
    pub span: i64,
    /// Number of pixels along the longer side.
    pub cells: u32,
}

/// The longer of the two sides of a grid.
pub open spec fn longer_side(width: int, height: int) -> int {
    if width > height {
        width
    } else {
        height
    }
}

/// Half the extent of the view at a zoom level: `2^-zoom` plane units.
pub open spec fn zoom_scale(zoom: int) -> int {
    pow2((FRAC_BITS - zoom) as nat) as int
}

/// The plane coordinate of the centre of pixel `k` out of `cells`, relative
/// to the centre of the view, where the longer side has `side` pixels.
pub open spec fn axis_offset(scale: int, k: int, cells: int, side: int) -> int {
    (scale * (2 * k + 1 - cells)) / side
}

/// The plane point at the centre of pixel `(x, y)` of a `width` by `height` grid.
pub open spec fn pixel_center(center: PlanePoint, scale: int, x: int, y: int, width: int, height: int) -> PlanePoint {
    let side = longer_side(width, height);
    PlanePoint {
        re: center.re + axis_offset(scale, x, width, side),
        im: center.im + axis_offset(scale, y, height, side),
    }
}

/// The index of the pixel, out of `cells`, whose span along one axis holds
/// the plane coordinate `coord`. It lies outside `0..cells` when none does.
pub open spec fn axis_index(center: int, scale: int, coord: int, cells: int, side: int) -> int {
    ((coord - center) * side + cells * scale) / (2 * scale)
}

/// How far `k` pixels reach: `span * k / cells`, rounded down.
pub open spec fn step_offset(size: PixelSize, k: int) -> int {
    (size.span * k) / (size.cells as int)
}

impl Camera {
    /// The bounds that keep every transform within 64 bits.
    pub closed spec fn wf(self) -> bool {
        &&& 0 < self.scale <= CAMERA_LIMIT
        &&& -CAMERA_LIMIT <= self.center.re <= CAMERA_LIMIT
        &&& -CAMERA_LIMIT <= self.center.im <= CAMERA_LIMIT
    }

    #[verifier::type_invariant]
    spec fn inv(self) -> bool {
        self.wf()
    }

    /// The centre of the view.
    pub closed spec fn spec_center(self) -> ComplexPoint {
        self.center
    }

    /// Half the extent of the longer side of the view, in units of 2^-30.
    pub closed spec fn spec_scale(self) -> int {
        self.scale as int
    }

    /// The plane point at the centre of pixel `(x, y)`.
    pub open spec fn spec_transform(self, x: int, y: int, width: int, height: int) -> PlanePoint {
        pixel_center(self.spec_center()@, self.spec_scale(), x, y, width, height)
    }

    /// The pixel whose cell holds `pt`, if it lies in the grid.
    pub open spec fn spec_to_discrete(self, pt: PlanePoint, width: int, height: int) -> Option<(int, int)> {
        let side = longer_side(width, height);
        let col = axis_index(self.spec_center()@.re, self.spec_scale(), pt.re, width, side);
        let row = axis_index(self.spec_center()@.im, self.spec_scale(), pt.im, height, side);
        if 0 <= col < width && 0 <= row < height {
            Some((col, row))
        } else {
            None
        }
    }

    /// What a well-formed camera holds.
    pub proof fn lemma_wf_bounds(self)
        requires
            self.wf(),
        ensures
            0 < self.spec_scale() <= CAMERA_LIMIT,
            -CAMERA_LIMIT <= self.spec_center().re <= CAMERA_LIMIT,
            -CAMERA_LIMIT <= self.spec_center().im <= CAMERA_LIMIT,
    {
    }

    /// A camera centred at `center` whose longer side spans `2 * 2^-zoom`
    /// plane units; `None` when the zoom level or the centre is out of range.
    pub fn new(center: ComplexPoint, zoom: i32) -> (r: Option<Camera>)
        ensures
            r.is_some() <==> (MIN_ZOOM <= zoom <= MAX_ZOOM && -CAMERA_LIMIT <= center.re <= CAMERA_LIMIT
                && -CAMERA_LIMIT <= center.im <= CAMERA_LIMIT),
            r matches Some(cam) ==> cam.wf() && cam.spec_center() == center && cam.spec_scale() == zoom_scale(
                zoom as int,
            ),
    {
        if zoom < MIN_ZOOM || zoom > MAX_ZOOM {
            return None;
        }
        let exponent: u32 = (FRAC_BITS as i32 - zoom) as u32;
        let mut scale: i64 = 1;
        let mut done: u32 = 0;
        proof {
            lemma2_to64();
        }
        while done < exponent
            invariant
                done <= exponent <= 61,
                scale == pow2(done as nat),
                0 < scale <= 0x2000_0000_0000_0000,
            decreases exponent - done,
        {
            proof {
                lemma_pow2_unfold((done + 1) as nat);
                lemma2_to64_rest();
                if done + 1 < 61 {
                    lemma_pow2_strictly_increases((done + 1) as nat, 61);
                }
            }
            scale = scale * 2;
            done = done + 1;
        }
        Camera::with_scale(center, scale)
    }

    /// A camera centred at `center` whose longer side spans `2 * scale`
    /// units; `None` when the scale or the centre is out of range.
    pub fn with_scale(center: ComplexPoint, scale: i64) -> (r: Option<Camera>)
        ensures
            r.is_some() <==> (0 < scale <= CAMERA_LIMIT && -CAMERA_LIMIT <= center.re <= CAMERA_LIMIT
                && -CAMERA_LIMIT <= center.im <= CAMERA_LIMIT),
            r matches Some(cam) ==> cam.wf() && cam.spec_center() == center && cam.spec_scale() == scale,
    {
        if scale <= 0 || scale > CAMERA_LIMIT {
            return None;
        }
        if center.re < -CAMERA_LIMIT || center.re > CAMERA_LIMIT || center.im < -CAMERA_LIMIT || center.im
            > CAMERA_LIMIT {
            return None;
        }
        Some(Camera { center, scale })
    }

    /// The centre of the view.
    pub fn center(&self) -> (c: ComplexPoint)
        ensures
            c == self.spec_center(),
    {
        self.center
    }

    /// Half the extent of the longer side of the view, in units of 2^-30.
    pub fn scale(&self) -> (s: i64)
        ensures
            s == self.spec_scale(),
            self.wf(),
    {
        proof {
            use_type_invariant(self);
        }
        self.scale
    }

    /// The offset of the centre of pixel `k` along one axis.
    fn axis(&self, k: u32, cells: u32, side: u32) -> (d: i64)
        requires
            k < cells <= side,
        ensures
            d == axis_offset(self.spec_scale(), k as int, cells as int, side as int),
            -self.spec_scale() <= d < self.spec_scale(),
    {
        proof {
            use_type_invariant(self);
        }
        let steps: i128 = 2 * (k as i128) + 1 - (cells as i128);
        let scale: i128 = self.scale as i128;
        assert(-(scale * side) < scale * steps < scale * side && -0x2000_0000_0000_0000_0000_0000 <= scale
            * steps <= 0x2000_0000_0000_0000_0000_0000) by (nonlinear_arith)
            requires
                0 < scale <= 0x2000_0000_0000_0000,
                -side < steps < side,
                0 < side <= 0xffff_ffff,
        ;
        let d: i128 = div_floor(scale * steps, side as i128);
        proof {
            lemma_quotient_bound(scale * steps, side as int, scale as int);
        }
        d as i64
    }

    /// The plane point at the centre of pixel `(x, y)` of a `width` by
    /// `height` grid: the longer side of the grid spans the whole view, and
    /// pixels are square.
    pub fn transform(&self, x: u32, y: u32, width: u32, height: u32) -> (p: ComplexPoint)
        requires
            x < width,
            y < height,
        ensures
            p@ == self.spec_transform(x as int, y as int, width as int, height as int),
            -2 * CAMERA_LIMIT <= p.re < 2 * CAMERA_LIMIT,
            -2 * CAMERA_LIMIT <= p.im < 2 * CAMERA_LIMIT,
    {
        proof {
            use_type_invariant(self);
        }
        let side: u32 = if width > height {
            width
        } else {
            height
        };
        let dx: i64 = self.axis(x, width, side);
        let dy: i64 = self.axis(y, height, side);
        ComplexPoint { re: self.center.re + dx, im: self.center.im + dy }
    }

    /// The plane point of pixel `(0, 0)` and the exact size of a pixel.
    pub fn find_origin_and_pixel_size(&self, width: u32, height: u32) -> (r: (ComplexPoint, PixelSize))
        requires
            width > 0,
            height > 0,
        ensures
            r.0@ == self.spec_transform(0, 0, width as int, height as int),
            r.1.span == 2 * self.spec_scale(),
            r.1.cells == longer_side(width as int, height as int),
    {
        proof {
            use_type_invariant(self);
        }
        let side: u32 = if width > height {
            width
        } else {
            height
        };
        let origin = self.transform(0, 0, width, height);
        (origin, PixelSize { span: 2 * self.scale, cells: side })
    }

    /// The index along one axis of the pixel whose span holds `coord`.
    fn index(&self, center: i64, coord: i64, cells: u32, side: u32) -> (k: Option<u32>)
        requires
            0 < cells <= side,
            -CAMERA_LIMIT <= center <= CAMERA_LIMIT,
        ensures
            k matches Some(i) ==> i < cells && i == axis_index(
                center as int,
                self.spec_scale(),
                coord as int,
                cells as int,
                side as int,
            ),
            k is None ==> !(0 <= axis_index(
                center as int,
                self.spec_scale(),
                coord as int,
                cells as int,
                side as int,
            ) < cells),
    {
        proof {
            use_type_invariant(self);
        }
        let delta: i128 = (coord as i128) - (center as i128);
        let scale: i128 = self.scale as i128;
        assert(-0x1_8000_0000_0000_0000_0000_0000 <= delta * side <= 0x1_8000_0000_0000_0000_0000_0000 && 0
            <= cells * scale <= 0x2000_0000_0000_0000_0000_0000) by (nonlinear_arith)
            requires
                -0x1_8000_0000_0000_0000 <= delta <= 0x1_8000_0000_0000_0000,
                0 < cells <= side <= 0xffff_ffff,
                0 < scale <= 0x2000_0000_0000_0000,
        ;
        let shifted: i128 = delta * (side as i128) + (cells as i128) * scale;
        let k: i128 = div_floor(shifted, 2 * scale);
        if 0 <= k && k < cells as i128 {
            Some(k as u32)
        } else {
            None
        }
    }

    /// The pixel of a `width` by `height` grid whose cell holds `pt`, or
    /// `None` when `pt` lies outside the grid.
    pub fn to_discrete(&self, pt: ComplexPoint, width: u32, height: u32) -> (r: Option<(u32, u32)>)
        requires
            width > 0,
            height > 0,
        ensures
            match r {
                Some((col, row)) => self.spec_to_discrete(pt@, width as int, height as int) == Some(
                    (col as int, row as int),
                ),
                None => self.spec_to_discrete(pt@, width as int, height as int) is None,
            },
    {
        proof {
            use_type_invariant(self);
        }
        let side: u32 = if width > height {
            width
        } else {
            height
        };
        match self.index(self.center.re, pt.re, width, side) {
            None => None,
            Some(col) => match self.index(self.center.im, pt.im, height, side) {
                None => None,
                Some(row) => Some((col, row)),
            },
        }
    }
}

impl PixelSize {
    /// How far `k` pixels reach: `span * k / cells`, rounded down.
    pub fn offset(&self, k: u32) -> (d: i128)
        requires
            self.cells > 0,
        ensures
            d == step_offset(*self, k as int),
    {
        let span: i128 = self.span as i128;
        assert(-0x8000_0000_0000_0000_0000_0000 <= span * k <= 0x8000_0000_0000_0000_0000_0000)
            by (nonlinear_arith)
            requires
                -0x8000_0000_0000_0000 <= span <= 0x8000_0000_0000_0000,
                0 <= k <= 0xffff_ffff,
        ;
        div_floor(span * (k as i128), self.cells as i128)
    }
}

/// A quotient by a positive divisor lies within `limit` when the dividend
/// lies strictly within `limit * d`.
pub proof fn lemma_quotient_bound(a: int, d: int, limit: int)
    requires
        d > 0,
        -(limit * d) < a < limit * d,
    ensures
        -limit <= a / d < limit,
{
    lemma_fundamental_div_mod(a, d);
    lemma_mod_bound(a, d);
    let q = a / d;
    assert(q < limit) by (nonlinear_arith)
        requires
            d * q <= a,
            a < limit * d,
            d > 0,
    ;
    assert(q >= -limit) by (nonlinear_arith)
        requires
            d * q + d > a,
            a > -(limit * d),
            d > 0,
    ;
}

/// The floor of a sum is the sum of the floors, or one more.
pub proof fn lemma_floor_of_sum(a: int, b: int, d: int)
    requires
        d > 0,
    ensures
        a / d + b / d <= (a + b) / d <= a / d + b / d + 1,
{
    lemma_fundamental_div_mod(a, d);
    lemma_fundamental_div_mod(b, d);
    lemma_mod_bound(a, d);
    lemma_mod_bound(b, d);
    let q = a / d + b / d;
    let r = a % d + b % d;
    assert(a + b == q * d + r) by (nonlinear_arith)
        requires
            a == d * (a / d) + a % d,
            b == d * (b / d) + b % d,
            q == a / d + b / d,
            r == a % d + b % d,
    ;
    if r < d {
        lemma_fundamental_div_mod_converse(a + b, d, q, r);
    } else {
        assert(a + b == (q + 1) * d + (r - d)) by (nonlinear_arith)
            requires
                a + b == q * d + r,
        ;
        lemma_fundamental_div_mod_converse(a + b, d, q + 1, r - d);
    }
}

/// Scanning from the origin pixel in steps of the pixel size reaches the
/// centre of every pixel to within one unit of 2^-30, which is below 10^-9:
/// along each axis the transform is the scanned coordinate or one unit more.
pub proof fn lemma_scan_matches_transform(cam: Camera, size: PixelSize, x: int, y: int, width: int, height: int)
    requires
        cam.wf(),
        0 <= x < width,
        0 <= y < height,
        size.span == 2 * cam.spec_scale(),
        size.cells == longer_side(width, height),
    ensures
        ({
            let origin = cam.spec_transform(0, 0, width, height);
            let target = cam.spec_transform(x, y, width, height);
            &&& 0 <= target.re - (origin.re + step_offset(size, x)) <= 1
            &&& 0 <= target.im - (origin.im + step_offset(size, y)) <= 1
        }),
{
    let side = longer_side(width, height);
    let s = cam.spec_scale();
    lemma_floor_of_sum(s * (1 - width), 2 * s * x, side);
    lemma_floor_of_sum(s * (1 - height), 2 * s * y, side);
    assert(s * (1 - width) + 2 * s * x == s * (2 * x + 1 - width)) by (nonlinear_arith);
    assert(s * (1 - height) + 2 * s * y == s * (2 * y + 1 - height)) by (nonlinear_arith);
    assert(s * (2 * 0 + 1 - width) == s * (1 - width));
    assert(s * (2 * 0 + 1 - height) == s * (1 - height));
    assert(size.span * x == 2 * s * x) by (nonlinear_arith)
        requires
            size.span == 2 * s,
    ;
    assert(size.span * y == 2 * s * y) by (nonlinear_arith)
        requires
            size.span == 2 * s,
    ;
}

/// Along one axis, the centre of pixel `k` lies in the span of pixel `k`,
/// provided a pixel is at least two units wide.
pub proof fn lemma_axis_round_trip(center: int, scale: int, k: int, cells: int, side: int)
    requires
        0 <= k < cells <= side <= scale,
    ensures
        axis_index(center, scale, center + axis_offset(scale, k, cells, side), cells, side) == k,
{
    let a = scale * (2 * k + 1 - cells);
    let f = a / side;
    lemma_fundamental_div_mod(a, side);
    lemma_mod_bound(a, side);
    let r = a % side;
    let n = f * side + cells * scale;
    assert(n == scale * (2 * k + 1) - r) by (nonlinear_arith)
        requires
            a == side * f + r,
            a == scale * (2 * k + 1 - cells),
            n == f * side + cells * scale,
    ;
    assert(n == k * (2 * scale) + (scale - r)) by (nonlinear_arith)
        requires
            n == scale * (2 * k + 1) - r,
    ;
    lemma_fundamental_div_mod_converse(n, 2 * scale, k, scale - r);
    assert((center + f - center) * side + cells * scale == n) by (nonlinear_arith)
        requires
            n == f * side + cells * scale,
    ;
}

/// Mapping a pixel to the plane and back gives the pixel again, provided a
/// pixel is at least two units wide.
pub proof fn lemma_round_trip(cam: Camera, x: int, y: int, width: int, height: int)
    requires
        cam.wf(),
        0 <= x < width,
        0 <= y < height,
        longer_side(width, height) <= cam.spec_scale(),
    ensures
        cam.spec_to_discrete(cam.spec_transform(x, y, width, height), width, height) == Some((x, y)),
{
    let side = longer_side(width, height);
    let c = cam.spec_center()@;
    lemma_axis_round_trip(c.re, cam.spec_scale(), x, width, side);
    lemma_axis_round_trip(c.im, cam.spec_scale(), y, height, side);
}

} // verus!
