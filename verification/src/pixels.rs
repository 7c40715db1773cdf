//! Images as grids of pixels. A decoded image is an `image::DynamicImage`;
//! what this library knows of one is stated here and not proved.

use crate::color::Color;
use image::GenericImage;
use image::GenericImageView;
use std::rc::Rc;
use vstd::prelude::*;

verus! {

/// `image::DynamicImage`, a decoded image in any of its pixel formats. Nothing
/// inside it is visible here.
#[verifier::external_type_specification]
#[verifier::external_body]
pub struct ExDynamicImage(image::DynamicImage);

/// Width and height of an image, in pixels: what `GenericImageView::dimensions`
/// returns.
pub uninterp spec fn image_dimensions(img: image::DynamicImage) -> (u32, u32);

/// The colour at each position `(x, y)` of an image, as RGBA with eight bits
/// per channel: what `GenericImageView::get_pixel` returns there.
pub uninterp spec fn image_pixels(img: image::DynamicImage) -> Map<(int, int), Color>;

/// Whether an image stores its pixels as RGBA with eight bits per channel, so
/// that a colour written to it is read back unchanged: whether
/// `DynamicImage::as_rgba8` finds such a buffer.
pub uninterp spec fn image_is_rgba8(img: image::DynamicImage) -> bool;

/// What the library reads of an image: its size and the colour at each
/// position.
pub struct Grid {
    pub width: int,
    pub height: int,
    pub pixels: Map<(int, int), Color>,
}

impl Grid {
    /// The colour at `(x, y)`.
    pub open spec fn at(self, x: int, y: int) -> Color {
        self.pixels[(x, y)]
    }
}

/// The grid of an image.
pub open spec fn grid_of(img: image::DynamicImage) -> Grid {
    Grid {
        width: image_dimensions(img).0 as int,
        height: image_dimensions(img).1 as int,
        pixels: image_pixels(img),
    }
}

/// `GenericImageView::dimensions` of a `DynamicImage`: the result is the
/// image's width and height.
#[verifier::external_body]
pub(crate) fn dimensions_of(img: &image::DynamicImage) -> (d: (u32, u32))
    ensures
        d == image_dimensions(*img),
{
    img.dimensions()
}

/// `GenericImageView::get_pixel` of a `DynamicImage`, which panics outside the
/// image: inside it the result is the colour at that position, as RGBA.
#[verifier::external_body]
pub(crate) fn pixel_of(img: &image::DynamicImage, x: u32, y: u32) -> (c: Color)
    requires
        x < image_dimensions(*img).0,
        y < image_dimensions(*img).1,
    ensures
        c == image_pixels(*img)[(x as int, y as int)],
{
    let p = img.get_pixel(x, y);
    Color { r: p.0[0], g: p.0[1], b: p.0[2], a: p.0[3] }
}

/// `GenericImage::put_pixel` of a `DynamicImage`, which panics outside the
/// image: on an image of RGBA bytes it stores the colour as it is at that
/// position and changes nothing else.
#[verifier::external_body]
pub(crate) fn put_pixel_of(img: &mut image::DynamicImage, x: u32, y: u32, c: Color)
    requires
        image_is_rgba8(*old(img)),
        x < image_dimensions(*old(img)).0,
        y < image_dimensions(*old(img)).1,
    ensures
        image_is_rgba8(*final(img)),
        image_dimensions(*final(img)) == image_dimensions(*old(img)),
        image_pixels(*final(img)) == image_pixels(*old(img)).insert((x as int, y as int), c),
{
    img.put_pixel(x, y, image::Rgba([c.r, c.g, c.b, c.a]))
}

/// `DynamicImage::new_rgba8`, which panics when the number of bytes, four for
/// each pixel, of one row is more than a `usize` holds or that of all rows
/// more than `isize::MAX`, the most that a `Vec` takes: else the result is an
/// image of RGBA bytes of the given size with every channel of every pixel 0.
#[verifier::external_body]
pub(crate) fn blank_rgba8(width: u32, height: u32) -> (img: image::DynamicImage)
    requires
        4 * width <= usize::MAX,
        4 * width * height <= isize::MAX,
    ensures
        image_is_rgba8(img),
        image_dimensions(img) == (width, height),
        forall|x: int, y: int|
            0 <= x < width && 0 <= y < height ==> #[trigger] image_pixels(img)[(x, y)] == (Color {
                r: 0,
                g: 0,
                b: 0,
                a: 0,
            }),
{
    image::DynamicImage::new_rgba8(width, height)
}

/// `Rc::clone`: another handle to the same image.
#[verifier::external_body]
pub(crate) fn share(img: &Rc<image::DynamicImage>) -> (other: Rc<image::DynamicImage>)
    ensures
        other == *img,
{
    Rc::clone(img)
}

} // verus!
