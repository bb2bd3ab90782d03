//! Bitmap images of the `bmp` crate, filled pixel by pixel.

use vstd::prelude::*;
use bmp::{Image, Pixel};
use crate::gradient::Color;

verus! {

/// The image type of the `bmp` crate, carried through without a look inside.
#[verifier::external_type_specification]
#[verifier::external_body]
pub struct ExImage(Image);

/// The width of an image in pixels.
pub uninterp spec fn image_width(img: Image) -> u32;

/// The height of an image in pixels.
pub uninterp spec fn image_height(img: Image) -> u32;

/// The colour of each pixel of an image, by column and row, as red, green
/// and blue.
pub uninterp spec fn image_pixels(img: Image) -> Map<(u32, u32), (u8, u8, u8)>;

/// Whether an image of `width` by `height` pixels can be made: its rows,
/// padded to whole words, and its header together take less than 2^32 bytes.
pub open spec fn image_fits(width: u32, height: u32) -> bool {
    &&& width <= 0x3fff_fff0
    &&& (4 * width + 16) * height + 54 <= 0xffff_ffff
}

/// The three channels of a colour.
pub open spec fn rgb(c: Color) -> (u8, u8, u8) {
    (c.r, c.g, c.b)
}

/// Whether an image of `width` by `height` pixels can be made.
pub fn fits_image(width: u32, height: u32) -> (fits: bool)
    ensures
        fits == image_fits(width, height),
{
    if width > 0x3fff_fff0 {
        return false;
    }
    let row: u64 = 4 * (width as u64) + 16;
    assert(row * height <= 0x1_0000_0000 * 0xffff_ffff) by (nonlinear_arith)
        requires
            0 <= row <= 0x1_0000_0000,
            0 <= height <= 0xffff_ffff,
    ;
    row * (height as u64) + 54 <= 0xffff_ffff
}

/// A black image, by `bmp::Image::new`, which sets every pixel to black
/// and records the two sides. The sizes that it computes for the file
/// header stay below 2^32 for the sides admitted here.
#[verifier::external_body]
pub(crate) fn image_new(width: u32, height: u32) -> (img: Image)
    requires
        image_fits(width, height),
    ensures
        image_width(img) == width,
        image_height(img) == height,
        image_pixels(img) == Map::new(
            |p: (u32, u32)| p.0 < width && p.1 < height,
            |p: (u32, u32)| (0u8, 0u8, 0u8),
        ),
{
    Image::new(width, height)
}

/// Sets one pixel, by `bmp::Image::set_pixel`: the pixel in column `x` of
/// row `y` takes the colour, and nothing else changes. The index that it
/// computes stays below 2^32 for an image of the sides admitted here.
#[verifier::external_body]
pub(crate) fn image_set_pixel(img: &mut Image, x: u32, y: u32, color: Color)
    requires
        image_fits(image_width(*old(img)), image_height(*old(img))),
        x < image_width(*old(img)),
        y < image_height(*old(img)),
    ensures
        image_width(*final(img)) == image_width(*old(img)),
        image_height(*final(img)) == image_height(*old(img)),
        image_pixels(*final(img)) == image_pixels(*old(img)).insert((x, y), rgb(color)),
{
    img.set_pixel(x, y, Pixel { r: color.r, g: color.g, b: color.b });
}

} // verus!
