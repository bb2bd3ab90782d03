//! From a view of the plane to an image: plots of per-pixel evaluations,
//! direct escape-time colouring, and images of display levels.

use vstd::prelude::*;
use bmp::Image;
use crate::camera::Camera;
use crate::complex::{ComplexPoint, PlanePoint};
use crate::error::ConfigError;
use crate::fixed::ONE;
use crate::fractal::{
    default_config, eval_julia, eval_mandelbrot, intensity, intensity_of, julia_index, mandelbrot_escape,
};
use crate::gradient::{Color, Gradient};
use crate::grid::{grid_view, is_grid};
use crate::image::{
    fits_image, image_fits, image_height, image_new, image_pixels, image_set_pixel, image_width, rgb,
};
use crate::plotter::{row_ok, ParallelPlotter};

verus! {

/// The family of the fractal that is drawn.
#[derive(Clone, Copy, Debug, PartialEq, Eq, Structural)]
pub enum Fractal {
    Mandelbrot,
    Julia,
}

/// The colour that three channels make.
pub open spec fn color_of(p: (u8, u8, u8)) -> Color {
    Color { r: p.0, g: p.1, b: p.2 }
}

/// Whether the pixels of `img` are those of a `width` by `height` grid.
pub open spec fn image_is(img: Image, width: u32, height: u32) -> bool {
    &&& image_width(img) == width
    &&& image_height(img) == height
    &&& forall|p: (u32, u32)| image_pixels(img).dom().contains(p) <==> p.0 < width && p.1 < height
}

/// The share of the budget that the evaluation of `fractal` at `pt` uses.
pub open spec fn direct_intensity(fractal: Fractal, pt: PlanePoint, max: nat) -> int {
    match fractal {
        Fractal::Mandelbrot => intensity_of(mandelbrot_escape(pt, max, default_config()).0, max),
        Fractal::Julia => intensity_of(julia_index(pt, max), max),
    }
}

/// Whether `v` is what `eval` returns at the plane point `at` for the
/// budget `max`.
pub open spec fn evaluated<T, F: Fn(ComplexPoint, u32) -> T>(eval: &F, at: PlanePoint, max: u32, v: T) -> bool {
    exists|pt: ComplexPoint| pt@ == at && eval.ensures((pt, max), v)
}

/// An image whose pixel `(x, y)` has the colour that `color_at` returns
/// for it.
fn paint<F: Fn(u32, u32) -> Color>(width: u32, height: u32, color_at: &F) -> (img: Image)
    requires
        image_fits(width, height),
        forall|x: u32, y: u32| x < width && y < height ==> color_at.requires((x, y)),
    ensures
        image_is(img, width, height),
        forall|x: u32, y: u32|
            x < width && y < height ==> color_at.ensures((x, y), color_of(#[trigger] image_pixels(img)[(x, y)])),
{
    let mut img = image_new(width, height);
    let mut y: u32 = 0;
    while y < height
        invariant
            y <= height,
            image_fits(width, height),
            image_is(img, width, height),
            forall|x: u32, y: u32| x < width && y < height ==> color_at.requires((x, y)),
            forall|px: u32, py: u32|
                px < width && py < y ==> color_at.ensures(
                    (px, py),
                    color_of(#[trigger] image_pixels(img)[(px, py)]),
                ),
        decreases height - y,
    {
        let mut x: u32 = 0;
        while x < width
            invariant
                x <= width,
                y < height,
                image_fits(width, height),
                image_is(img, width, height),
                forall|x: u32, y: u32| x < width && y < height ==> color_at.requires((x, y)),
                forall|px: u32, py: u32|
                    px < width && (py < y || (py == y && px < x)) ==> color_at.ensures(
                        (px, py),
                        color_of(#[trigger] image_pixels(img)[(px, py)]),
                    ),
            decreases width - x,
        {
            let c = color_at(x, y);
            let ghost before = image_pixels(img);
            image_set_pixel(&mut img, x, y, c);
            proof {
                assert(color_of(rgb(c)) == c);
                assert forall|p: (u32, u32)| image_pixels(img).dom().contains(p) <==> p.0 < width && p.1
                    < height by {
                    assert(before.dom().contains(p) <==> p.0 < width && p.1 < height);
                }
                assert forall|px: u32, py: u32|
                    px < width && (py < y || (py == y && px < x + 1)) implies color_at.ensures(
                    (px, py),
                    color_of(#[trigger] image_pixels(img)[(px, py)]),
                ) by {
                    if !(px == x && py == y) {
                        assert(image_pixels(img)[(px, py)] == before[(px, py)]);
                    }
                }
            }
            x = x + 1;
        }
        y = y + 1;
    }
    img
}

/// The grid of what `eval` returns at the plane point of each pixel, for
/// the iteration budget `max_iterations`, computed by `workers` workers.
/// A grid without cells is refused before `eval` is called.
pub fn make_plot<T: Send, F: Fn(ComplexPoint, u32) -> T + Sync>(
    cam: &Camera,
    eval: &F,
    width: u32,
    height: u32,
    max_iterations: u32,
    workers: usize,
) -> (r: Result<Vec<Vec<T>>, ConfigError>)
    requires
        forall|pt: ComplexPoint| eval.requires((pt, max_iterations)),
    ensures
        r is Ok <==> width > 0 && height > 0,
        match r {
            Ok(plot) => {
                &&& is_grid(grid_view(plot), width as int, height as int)
                &&& forall|y: int, x: int|
                    0 <= y < height && 0 <= x < width ==> evaluated(
                        eval,
                        cam.spec_transform(x, y, width as int, height as int),
                        max_iterations,
                        #[trigger] grid_view(plot)[y][x],
                    )
            },
            Err(e) => e == ConfigError::EmptyGrid,
        },
{
    let at_pixel = |x: usize, y: usize| -> (v: T)
        requires
            x < width,
            y < height,
        ensures
            exists|pt: ComplexPoint|
                pt@ == cam.spec_transform(x as int, y as int, width as int, height as int) && eval.ensures(
                    (pt, max_iterations),
                    v,
                ),
        {
            let pt = cam.transform(x as u32, y as u32, width, height);
            eval(pt, max_iterations)
        };
    let plotter = ParallelPlotter::new(workers);
    let plot = match plotter.plot(width as usize, height as usize, &at_pixel) {
        Ok(plot) => plot,
        Err(e) => {
            return Err(e);
        },
    };
    proof {
        assert forall|y: int, x: int| 0 <= y < height && 0 <= x < width implies evaluated(
            eval,
            cam.spec_transform(x, y, width as int, height as int),
            max_iterations,
            #[trigger] grid_view(plot)[y][x],
        ) by {
            assert(row_ok(&at_pixel, width as usize, y as usize, grid_view(plot)[y]));
            assert(at_pixel.ensures((x as usize, y as usize), grid_view(plot)[y][x]));
        }
        assert forall|y: int| 0 <= y < height implies (#[trigger] grid_view(plot)[y]).len() == width by {
            assert(row_ok(&at_pixel, width as usize, y as usize, grid_view(plot)[y]));
        }
    }
    Ok(plot)
}

/// The image of a plot of intensities: each pixel has the colour of the
/// gradient at the intensity of its cell.
pub fn make_image(plot: &Vec<Vec<i64>>, grad: &Gradient, width: u32, height: u32) -> (img: Image)
    requires
        width > 0,
        height > 0,
        image_fits(width, height),
        is_grid(grid_view(*plot), width as int, height as int),
        forall|y: int, x: int|
            0 <= y < height && 0 <= x < width ==> 0 <= #[trigger] grid_view(*plot)[y][x] <= ONE,
    ensures
        image_is(img, width, height),
        forall|x: u32, y: u32|
            x < width && y < height ==> #[trigger] image_pixels(img)[(x, y)] == rgb(
                grad.spec_get_color(grid_view(*plot)[y as int][x as int] as int),
            ),
{
    assert forall|y: int, x: int| 0 <= y < height && 0 <= x < width implies plot@[y]@.len() == width && 0
        <= #[trigger] plot@[y]@[x] <= ONE by {
        assert(grid_view(*plot)[y].len() == width);
        assert(grid_view(*plot)[y][x] == plot@[y]@[x]);
    }
    let color_at = |x: u32, y: u32| -> (c: Color)
        requires
            x < width,
            y < height,
        ensures
            c == grad.spec_get_color(plot@[y as int]@[x as int] as int),
        {
            assert(0 <= plot@[y as int]@[x as int] <= ONE);
            grad.get_color(plot[y as usize][x as usize])
        };
    let img = paint(width, height, &color_at);
    proof {
        assert forall|x: u32, y: u32| x < width && y < height implies #[trigger] image_pixels(img)[(x, y)]
            == rgb(grad.spec_get_color(grid_view(*plot)[y as int][x as int] as int)) by {
            let p = image_pixels(img)[(x, y)];
            assert(color_at.ensures((x, y), color_of(p)));
            assert(rgb(color_of(p)) == p);
        }
    }
    img
}

/// The image of three grids of display levels, one for each channel.
pub fn make_channels_image(red: &Vec<Vec<u8>>, green: &Vec<Vec<u8>>, blue: &Vec<Vec<u8>>, width: u32, height: u32) -> (img: Image)
    requires
        width > 0,
        height > 0,
        image_fits(width, height),
        is_grid(grid_view(*red), width as int, height as int),
        is_grid(grid_view(*green), width as int, height as int),
        is_grid(grid_view(*blue), width as int, height as int),
    ensures
        image_is(img, width, height),
        forall|x: u32, y: u32|
            x < width && y < height ==> #[trigger] image_pixels(img)[(x, y)] == (
                grid_view(*red)[y as int][x as int],
                grid_view(*green)[y as int][x as int],
                grid_view(*blue)[y as int][x as int],
            ),
{
    assert forall|y: int| 0 <= y < height implies (#[trigger] red@[y])@.len() == width && green@[y]@.len()
        == width && blue@[y]@.len() == width by {
        assert(grid_view(*red)[y].len() == width);
        assert(grid_view(*green)[y].len() == width);
        assert(grid_view(*blue)[y].len() == width);
    }
    let color_at = |x: u32, y: u32| -> (c: Color)
        requires
            x < width,
            y < height,
        ensures
            c.r == red@[y as int]@[x as int],
            c.g == green@[y as int]@[x as int],
            c.b == blue@[y as int]@[x as int],
        {
            assert(red@[y as int]@.len() == width);
            Color {
                r: red[y as usize][x as usize],
                g: green[y as usize][x as usize],
                b: blue[y as usize][x as usize],
            }
        };
    let img = paint(width, height, &color_at);
    proof {
        assert forall|x: u32, y: u32| x < width && y < height implies #[trigger] image_pixels(img)[(x, y)] == (
            grid_view(*red)[y as int][x as int],
            grid_view(*green)[y as int][x as int],
            grid_view(*blue)[y as int][x as int],
        ) by {
            let p = image_pixels(img)[(x, y)];
            assert(color_at.ensures((x, y), color_of(p)));
        }
    }
    img
}

/// The share of the budget that the evaluation of `fractal` at `pt` uses.
pub fn eval_intensity(fractal: Fractal, pt: ComplexPoint, max: u32) -> (v: i64)
    ensures
        v == direct_intensity(fractal, pt@, max as nat),
        0 <= v <= ONE,
{
    match fractal {
        Fractal::Mandelbrot => intensity(eval_mandelbrot(pt, max).iterations, max),
        Fractal::Julia => intensity(eval_julia(pt, max), max),
    }
}

/// The direct rendering of `fractal`: each pixel has the colour of the
/// gradient at the share of the budget that the evaluation at the plane
/// point of the pixel uses. Refused when the grid has no cells or is too
/// large for an image.
pub fn render_direct(
    cam: &Camera,
    grad: &Gradient,
    fractal: Fractal,
    width: u32,
    height: u32,
    max_iterations: u32,
    workers: usize,
) -> (r: Result<Image, ConfigError>)
    ensures
        r is Ok <==> width > 0 && height > 0 && image_fits(width, height),
        match r {
            Ok(img) => {
                &&& image_is(img, width, height)
                &&& forall|x: u32, y: u32|
                    x < width && y < height ==> #[trigger] image_pixels(img)[(x, y)] == rgb(
                        grad.spec_get_color(
                            direct_intensity(
                                fractal,
                                cam.spec_transform(x as int, y as int, width as int, height as int),
                                max_iterations as nat,
                            ),
                        ),
                    )
            },
            Err(e) => e == if width == 0 || height == 0 {
                ConfigError::EmptyGrid
            } else {
                ConfigError::GridTooLarge
            },
        },
{
    if width == 0 || height == 0 {
        return Err(ConfigError::EmptyGrid);
    }
    if !fits_image(width, height) {
        return Err(ConfigError::GridTooLarge);
    }
    let eval = |pt: ComplexPoint, max: u32| -> (v: i64)
        ensures
            v == direct_intensity(fractal, pt@, max as nat),
            0 <= v <= ONE,
        { eval_intensity(fractal, pt, max) };
    let plot = match make_plot(cam, &eval, width, height, max_iterations, workers) {
        Ok(plot) => plot,
        Err(e) => {
            return Err(e);
        },
    };
    proof {
        assert forall|y: int, x: int| 0 <= y < height && 0 <= x < width implies 0 <= #[trigger] grid_view(
            plot,
        )[y][x] <= ONE && grid_view(plot)[y][x] == direct_intensity(
            fractal,
            cam.spec_transform(x, y, width as int, height as int),
            max_iterations as nat,
        ) by {
            let v = grid_view(plot)[y][x];
            assert(evaluated(&eval, cam.spec_transform(x, y, width as int, height as int), max_iterations, v));
            let pt = choose|pt: ComplexPoint|
                pt@ == cam.spec_transform(x, y, width as int, height as int) && eval.ensures(
                    (pt, max_iterations),
                    v,
                );
            assert(eval.ensures((pt, max_iterations), v));
        }
    }
    Ok(make_image(&plot, grad, width, height))
}

} // verus!
