//! Painting leaves on a canvas: the fill of a leaf and the segments of its
//! outline.

use crate::color::Color;
use crate::geometry::Rect;
use crate::pixels::blank_rgba8;
use crate::pixels::dimensions_of;
use crate::pixels::grid_of;
use crate::pixels::image_dimensions;
use crate::pixels::image_is_rgba8;
use crate::pixels::put_pixel_of;
use crate::pixels::Grid;
use crate::quad::Quad;
use crate::stats::clamp_end;
use crate::stats::visible;
use vstd::prelude::*;

verus! {

/// A line segment between two points of the pixel grid, both ends included.
#[derive(Clone, Copy, Debug, PartialEq, Eq, Structural)]
pub struct Segment {
    pub x0: u32,
    pub y0: u32,
    pub x1: u32,
    pub y1: u32,
}

/// The outline of a rectangle: its top, bottom, left and right edge, in this
/// order. The bottom and the right edge run along the row and the column
/// behind the rectangle.
pub open spec fn outline_of(r: Rect) -> Seq<Segment> {
    let left = r.x as u32;
    let top = r.y as u32;
    let right = (r.x + r.width) as u32;
    let bottom = (r.y + r.height) as u32;
    seq![
        Segment { x0: left, y0: top, x1: right, y1: top },
        Segment { x0: left, y0: bottom, x1: right, y1: bottom },
        Segment { x0: left, y0: top, x1: left, y1: bottom },
        Segment { x0: right, y0: top, x1: right, y1: bottom },
    ]
}

/// The colour at `(px, py)` once the part of `r` that lies on the canvas `g`
/// has been filled with `color`.
pub open spec fn filled(g: Grid, r: Rect, color: Color, px: int, py: int) -> Color {
    if visible(g, r).contains(px, py) {
        color
    } else {
        g.at(px, py)
    }
}

/// Whether `canvas` is an empty canvas of the given size: an image of RGBA
/// bytes on which every pixel is transparent black.
pub open spec fn is_blank_canvas(canvas: image::DynamicImage, width: u32, height: u32) -> bool {
    &&& image_is_rgba8(canvas)
    &&& image_dimensions(canvas) == (width, height)
    &&& forall|x: int, y: int|
        0 <= x < width && 0 <= y < height ==> #[trigger] grid_of(canvas).at(x, y) == (Color {
            r: 0,
            g: 0,
            b: 0,
            a: 0,
        })
}

/// Whether a canvas of the given size can be had: the four bytes for each
/// pixel are, for one row, no more than a `usize` holds and, for all rows, no
/// more than `isize::MAX`, the most that one buffer takes.
pub open spec fn canvas_fits(width: u32, height: u32) -> bool {
    4 * width <= usize::MAX && 4 * width * height <= isize::MAX
}

/// An empty canvas of the given size, or `None` where no canvas of that size
/// can be had.
pub fn new_canvas(width: u32, height: u32) -> (canvas: Option<image::DynamicImage>)
    ensures
        canvas is Some <==> canvas_fits(width, height),
        canvas matches Some(img) ==> is_blank_canvas(img, width, height),
{
    assert(0 <= width * height <= 0xFFFF_FFFF * 0xFFFF_FFFF) by (nonlinear_arith)
        requires
            0 <= width <= 0xFFFF_FFFF,
            0 <= height <= 0xFFFF_FFFF,
    ;
    assert(4 * width * height == 4 * (width * height)) by (nonlinear_arith);
    let pixel_count: u128 = (width as u128) * (height as u128);
    let bytes: u128 = 4 * pixel_count;
    if 4 * (width as u128) <= usize::MAX as u128 && bytes <= isize::MAX as u128 {
        Some(blank_rgba8(width, height))
    } else {
        None
    }
}

/// The four segments of a leaf's outline.
pub fn quad_outline(leaf: &Quad) -> (segments: [Segment; 4])
    requires
        leaf@.rect.edges_fit(),
    ensures
        segments@ == outline_of(leaf@.rect),
{
    let left = leaf.x();
    let top = leaf.y();
    let right = leaf.right();
    let bottom = leaf.bottom();
    let segments = [
        Segment { x0: left, y0: top, x1: right, y1: top },
        Segment { x0: left, y0: bottom, x1: right, y1: bottom },
        Segment { x0: left, y0: top, x1: left, y1: bottom },
        Segment { x0: right, y0: top, x1: right, y1: bottom },
    ];
    assert(segments@ =~= outline_of(leaf@.rect));
    segments
}

/// Fills the part of a leaf that lies on the canvas with the leaf's colour.
/// Nothing else changes.
pub fn fill_quad_with_color(output_image: &mut image::DynamicImage, leaf: &Quad)
    requires
        image_is_rgba8(*old(output_image)),
    ensures
        image_is_rgba8(*final(output_image)),
        image_dimensions(*final(output_image)) == image_dimensions(*old(output_image)),
        forall|px: int, py: int|
            #[trigger] grid_of(*final(output_image)).at(px, py) == filled(
                grid_of(*old(output_image)),
                leaf@.rect,
                leaf@.color,
                px,
                py,
            ),
{
    let dims = dimensions_of(output_image);
    let x0 = leaf.x();
    let y0 = leaf.y();
    let end_x: u32 = clamp_end(x0, leaf.width(), dims.0);
    let end_y: u32 = clamp_end(y0, leaf.height(), dims.1);
    let color = leaf.color();
    let ghost before = grid_of(*output_image);
    let ghost v = visible(before, leaf@.rect);
    assert(v == (Rect { x: x0 as int, y: y0 as int, width: end_x - x0, height: end_y - y0 }));
    if end_x <= x0 || end_y <= y0 {
        return ;
    }
    let mut cx: u32 = x0;
    while cx < end_x
        invariant
            x0 <= cx <= end_x,
            y0 < end_y,
            end_x <= dims.0,
            end_y <= dims.1,
            image_is_rgba8(*output_image),
            image_dimensions(*output_image) == dims,
            grid_of(*output_image).width == before.width,
            grid_of(*output_image).height == before.height,
            forall|px: int, py: int|
                #[trigger] grid_of(*output_image).at(px, py) == (if x0 <= px < cx && y0 <= py
                    < end_y {
                    color
                } else {
                    before.at(px, py)
                }),
        decreases end_x - cx,
    {
        let mut cy: u32 = y0;
        while cy < end_y
            invariant
                x0 <= cx < end_x,
                y0 <= cy <= end_y,
                end_x <= dims.0,
                end_y <= dims.1,
                image_is_rgba8(*output_image),
                image_dimensions(*output_image) == dims,
                grid_of(*output_image).width == before.width,
                grid_of(*output_image).height == before.height,
                forall|px: int, py: int|
                    #[trigger] grid_of(*output_image).at(px, py) == (if (x0 <= px < cx && y0 <= py
                        < end_y) || (px == cx && y0 <= py < cy) {
                        color
                    } else {
                        before.at(px, py)
                    }),
            decreases end_y - cy,
        {
            let ghost prior = grid_of(*output_image);
            put_pixel_of(output_image, cx, cy, color);
            assert forall|px: int, py: int| #[trigger]
                grid_of(*output_image).at(px, py) == (if (x0 <= px < cx && y0 <= py < end_y) || (px
                    == cx && y0 <= py < cy + 1) {
                    color
                } else {
                    before.at(px, py)
                }) by {
                if px == cx && py == cy {
                } else {
                    assert((px, py) != (cx as int, cy as int));
                    assert(grid_of(*output_image).at(px, py) == prior.at(px, py));
                }
            }
            cy = cy + 1;
        }
        cx = cx + 1;
    }
}

} // verus!
