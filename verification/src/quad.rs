//! The regions of the quadtree.

use crate::color::black;
use crate::color::Color;
use crate::config::QuadConfig;
use crate::geometry::half_up;
use crate::geometry::lemma_children_tile;
use crate::geometry::Rect;
use crate::pixels::grid_of;
use crate::pixels::share;
use crate::pixels::Grid;
use crate::stats::average_color;
use crate::stats::average_in;
use crate::stats::is_uniform;
use crate::stats::non_uniformity;
use crate::stats::non_uniformity_in;
use crate::stats::MAX_DEVIATION;
use std::rc::Rc;
use vstd::prelude::*;

verus! {

/// A rectangular region of an image at some depth of the quadtree, with the
/// colour it is painted in once it is a leaf. All regions of one tree share
/// the image.
pub struct Quad {
    image: Rc<image::DynamicImage>,
    x: u32,
    y: u32,
    width: u32,
    height: u32,
    color: Color,
    config: QuadConfig,
    cur_depth: u32,
}

/// What a region is: the grid it reads, its rectangle, its depth, its colour
/// and the settings it was made with.
pub struct QuadView {
    pub grid: Grid,
    pub rect: Rect,
    pub depth: int,
    pub color: Color,
    pub config: QuadConfig,
}

impl QuadView {
    /// Child `k` of a region: child `k` of its rectangle, one level deeper,
    /// not yet coloured.
    pub open spec fn child(self, k: int) -> QuadView {
        QuadView { rect: self.rect.child(k), depth: self.depth + 1, color: black(), ..self }
    }

    /// The region with another colour.
    pub open spec fn painted(self, color: Color) -> QuadView {
        QuadView { color: color, ..self }
    }
}

/// The four children of a region tile it: each pixel of the region lies in
/// exactly one child and no child holds any other pixel. The left and the
/// top children have the halves that are rounded up, the others what is
/// left, so that widths and heights add up to the region's. Each child is one
/// level deeper. This holds at every depth.
pub proof fn lemma_split_tiles(v: QuadView)
    requires
        v.rect.width >= 0,
        v.rect.height >= 0,
    ensures
        forall|px: int, py: int|
            #[trigger] v.rect.children_containing(px, py) == (if v.rect.contains(px, py) {
                1int
            } else {
                0int
            }),
        forall|k: int| 0 <= k < 4 ==> v.rect.encloses((#[trigger] v.child(k)).rect),
        forall|k: int| 0 <= k < 4 ==> (#[trigger] v.child(k)).depth == v.depth + 1,
        v.child(0).rect.width == half_up(v.rect.width),
        v.child(2).rect.width == half_up(v.rect.width),
        v.child(1).rect.width == v.rect.width - half_up(v.rect.width),
        v.child(3).rect.width == v.rect.width - half_up(v.rect.width),
        v.child(0).rect.height == half_up(v.rect.height),
        v.child(1).rect.height == half_up(v.rect.height),
        v.child(2).rect.height == v.rect.height - half_up(v.rect.height),
        v.child(3).rect.height == v.rect.height - half_up(v.rect.height),
{
    lemma_children_tile(v.rect);
    assert forall|k: int| 0 <= k < 4 implies v.rect.encloses((#[trigger] v.child(k)).rect) by {
        assert(v.rect.encloses(v.rect.child(k)));
    }
}

impl View for Quad {
    type V = QuadView;

    closed spec fn view(&self) -> QuadView {
        QuadView {
            grid: grid_of(*self.image),
            rect: Rect {
                x: self.x as int,
                y: self.y as int,
                width: self.width as int,
                height: self.height as int,
            },
            depth: self.cur_depth as int,
            color: self.color,
            config: self.config,
        }
    }
}

impl Quad {
    /// The root region of an image: the given rectangle at depth 0, not yet
    /// coloured.
    pub fn new(
        image: image::DynamicImage,
        x: u32,
        y: u32,
        width: u32,
        height: u32,
        config: QuadConfig,
    ) -> (quad: Quad)
        ensures
            quad@ == (QuadView {
                grid: grid_of(image),
                rect: Rect { x: x as int, y: y as int, width: width as int, height: height as int },
                depth: 0,
                color: black(),
                config: config,
            }),
    {
        Quad {
            image: Rc::new(image),
            x,
            y,
            width,
            height,
            color: Color::black(),
            config,
            cur_depth: 0,
        }
    }

    /// One child of the region.
    pub(crate) fn child(&self, k: usize) -> (kid: Quad)
        requires
            k < 4,
            self@.rect.edges_fit(),
            self@.depth < u32::MAX,
        ensures
            kid@ == self@.child(k as int),
    {
        let new_width = (self.width - self.width / 2);
        let new_height = (self.height - self.height / 2);
        let x = if k == 1 || k == 3 {
            self.x + new_width
        } else {
            self.x
        };
        let y = if k == 2 || k == 3 {
            self.y + new_height
        } else {
            self.y
        };
        let width = if k == 1 || k == 3 {
            self.width - new_width
        } else {
            new_width
        };
        let height = if k == 2 || k == 3 {
            self.height - new_height
        } else {
            new_height
        };
        Quad {
            image: share(&self.image),
            x,
            y,
            width,
            height,
            color: Color::black(),
            config: self.config.clone(),
            cur_depth: self.cur_depth + 1,
        }
    }

    /// Splits the region into its four children: top left, top right, bottom
    /// left, bottom right. They tile the region.
    pub fn subdivide(&self) -> (children: [Quad; 4])
        requires
            self@.rect.edges_fit(),
            self@.depth < u32::MAX,
        ensures
            forall|k: int| 0 <= k < 4 ==> (#[trigger] children[k])@ == self@.child(k),
            forall|px: int, py: int|
                #[trigger] self@.rect.children_containing(px, py) == (if self@.rect.contains(px, py) {
                    1int
                } else {
                    0int
                }),
    {
        proof {
            lemma_children_tile(self@.rect);
        }
        [self.child(0), self.child(1), self.child(2), self.child(3)]
    }

    /// The average colour of the pixels that the region reads; black where it
    /// reads none.
    pub fn calc_avg_color(&self) -> (color: Color)
        ensures
            color == average_color(self@.grid, self@.rect),
    {
        average_in(&self.image, self.x, self.y, self.width, self.height)
    }

    /// The non-uniformity of the region: the mean distance of the pixels it
    /// reads to their average colour, in thousandths and rounded up. It is 0
    /// exactly where all pixels read have the same red, green and blue, as
    /// where it reads none.
    pub fn calc_color_distance(&self) -> (distance: u32)
        ensures
            distance == non_uniformity(self@.grid, self@.rect),
            distance <= MAX_DEVIATION,
            distance == 0 <==> is_uniform(self@.grid, self@.rect),
    {
        non_uniformity_in(&self.image, self.x, self.y, self.width, self.height)
    }

    /// Gives the region its colour.
    pub(crate) fn paint(&mut self, color: Color)
        ensures
            final(self)@ == old(self)@.painted(color),
    {
        self.color = color;
    }

    /// The region's first column.
    pub fn x(&self) -> (x: u32)
        ensures
            x == self@.rect.x,
    {
        self.x
    }

    /// The region's first row.
    pub fn y(&self) -> (y: u32)
        ensures
            y == self@.rect.y,
    {
        self.y
    }

    /// The number of columns.
    pub fn width(&self) -> (width: u32)
        ensures
            width == self@.rect.width,
    {
        self.width
    }

    /// The number of rows.
    pub fn height(&self) -> (height: u32)
        ensures
            height == self@.rect.height,
    {
        self.height
    }

    /// The column behind the region's last column.
    pub fn right(&self) -> (right: u32)
        requires
            self@.rect.edges_fit(),
        ensures
            right == self@.rect.x + self@.rect.width,
    {
        self.x + self.width
    }

    /// The row behind the region's last row.
    pub fn bottom(&self) -> (bottom: u32)
        requires
            self@.rect.edges_fit(),
        ensures
            bottom == self@.rect.y + self@.rect.height,
    {
        self.y + self.height
    }

    /// The number of splits between the root and the region.
    pub fn cur_depth(&self) -> (depth: u32)
        ensures
            depth == self@.depth,
    {
        self.cur_depth
    }

    /// The region's colour: black until it is a leaf.
    pub fn color(&self) -> (color: Color)
        ensures
            color == self@.color,
    {
        self.color
    }

    /// The settings the root was made with.
    pub fn config(&self) -> (config: &QuadConfig)
        ensures
            *config == self@.config,
    {
        &self.config
    }

    /// The image that the region reads.
    pub fn image(&self) -> (image: &image::DynamicImage)
        ensures
            grid_of(*image) == self@.grid,
    {
        &self.image
    }
}

impl Clone for Quad {
    fn clone(&self) -> (copy: Self)
        ensures
            copy@ == self@,
    {
        Quad {
            image: share(&self.image),
            x: self.x,
            y: self.y,
            width: self.width,
            height: self.height,
            color: self.color,
            config: self.config.clone(),
            cur_depth: self.cur_depth,
        }
    }
}

} // verus!
