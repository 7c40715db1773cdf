//! Rectangles of pixels and their division in four.

use vstd::prelude::*;

verus! {

/// An axis-aligned rectangle of pixels: the columns `x .. x + width` of the
/// rows `y .. y + height`.
pub struct Rect {
    pub x: int,
    pub y: int,
    pub width: int,
    pub height: int,
}

/// Half of `n`, rounded up.
pub open spec fn half_up(n: int) -> int {
    (n + 1) / 2
}

impl Rect {
    /// Whether the pixel `(px, py)` lies in the rectangle.
    pub open spec fn contains(self, px: int, py: int) -> bool {
        self.x <= px < self.x + self.width && self.y <= py < self.y + self.height
    }

    /// Whether the rectangle holds no pixel.
    pub open spec fn is_empty(self) -> bool {
        self.width <= 0 || self.height <= 0
    }

    /// Whether every pixel of `inner` lies in this rectangle, stated on the
    /// edges.
    pub open spec fn encloses(self, inner: Rect) -> bool {
        &&& self.x <= inner.x
        &&& self.y <= inner.y
        &&& inner.x + inner.width <= self.x + self.width
        &&& inner.y + inner.height <= self.y + self.height
    }

    /// Whether the rectangle's edges are numbers that a `u32` holds.
    pub open spec fn edges_fit(self) -> bool {
        &&& 0 <= self.x
        &&& 0 <= self.y
        &&& 0 <= self.width
        &&& 0 <= self.height
        &&& self.x + self.width <= u32::MAX
        &&& self.y + self.height <= u32::MAX
    }

    /// Whether the two rectangles have a pixel in common, stated on the edges.
    pub open spec fn overlaps(self, other: Rect) -> bool {
        &&& !self.is_empty()
        &&& !other.is_empty()
        &&& self.x < other.x + other.width
        &&& other.x < self.x + self.width
        &&& self.y < other.y + other.height
        &&& other.y < self.y + self.height
    }

    /// The part of the rectangle that lies in the first `bound_w` columns and
    /// the first `bound_h` rows.
    pub open spec fn clamp(self, bound_w: int, bound_h: int) -> Rect {
        Rect {
            x: self.x,
            y: self.y,
            width: if self.x + self.width <= bound_w {
                self.width
            } else {
                bound_w - self.x
            },
            height: if self.y + self.height <= bound_h {
                self.height
            } else {
                bound_h - self.y
            },
        }
    }

    /// Child `k` of the rectangle: 0 is top left, 1 top right, 2 bottom left,
    /// 3 bottom right. The left and the top children get the halves that are
    /// rounded up, the right and the bottom children what is left.
    pub open spec fn child(self, k: int) -> Rect {
        let w = half_up(self.width);
        let h = half_up(self.height);
        if k == 0 {
            Rect { x: self.x, y: self.y, width: w, height: h }
        } else if k == 1 {
            Rect { x: self.x + w, y: self.y, width: self.width - w, height: h }
        } else if k == 2 {
            Rect { x: self.x, y: self.y + h, width: w, height: self.height - h }
        } else {
            Rect { x: self.x + w, y: self.y + h, width: self.width - w, height: self.height - h }
        }
    }

    /// The number of children that contain the pixel `(px, py)`.
    pub open spec fn children_containing(self, px: int, py: int) -> int {
        (if self.child(0).contains(px, py) { 1int } else { 0int })
        + (if self.child(1).contains(px, py) { 1int } else { 0int })
        + (if self.child(2).contains(px, py) { 1int } else { 0int })
        + (if self.child(3).contains(px, py) { 1int } else { 0int })
    }
}

/// `overlaps` says what its name says: two rectangles overlap exactly when
/// some pixel lies in both.
pub proof fn lemma_overlaps_is_common_pixel(a: Rect, b: Rect)
    ensures
        a.overlaps(b) <==> exists|px: int, py: int| a.contains(px, py) && #[trigger] b.contains(px, py),
{
    if a.overlaps(b) {
        let px = if a.x >= b.x { a.x } else { b.x };
        let py = if a.y >= b.y { a.y } else { b.y };
        assert(a.contains(px, py) && b.contains(px, py));
    }
}

/// The four children tile their parent: each pixel of the parent lies in
/// exactly one child and no child holds any other pixel; the widths of a left
/// and a right child add up to the parent's width, the heights of a top and a
/// bottom child to its height, and the left and top halves are the ones
/// rounded up.
pub proof fn lemma_children_tile(r: Rect)
    requires
        r.width >= 0,
        r.height >= 0,
    ensures
        forall|px: int, py: int|
            #[trigger] r.children_containing(px, py) == (if r.contains(px, py) { 1int } else { 0int }),
        forall|k: int| 0 <= k < 4 ==> r.encloses(#[trigger] r.child(k)),
        forall|k: int| 0 <= k < 4 ==> (#[trigger] r.child(k)).width >= 0 && r.child(k).height >= 0,
        r.child(0).width + r.child(1).width == r.width,
        r.child(2).width + r.child(3).width == r.width,
        r.child(0).height + r.child(2).height == r.height,
        r.child(1).height + r.child(3).height == r.height,
        r.child(0).width == half_up(r.width),
        r.child(0).height == half_up(r.height),
        r.child(1).width <= r.child(0).width <= r.child(1).width + 1,
        r.child(2).height <= r.child(0).height <= r.child(2).height + 1,
{
}

/// A parent that overlaps a rectangle has a child that overlaps it.
pub proof fn lemma_overlap_passes_to_child(r: Rect, other: Rect) -> (k: int)
    requires
        r.overlaps(other),
    ensures
        0 <= k < 4,
        r.child(k).overlaps(other),
{
    lemma_children_tile(r);
    let px = if r.x >= other.x { r.x } else { other.x };
    let py = if r.y >= other.y { r.y } else { other.y };
    assert(r.contains(px, py) && other.contains(px, py));
    assert(r.children_containing(px, py) == 1);
    let k = if r.child(0).contains(px, py) {
        0int
    } else if r.child(1).contains(px, py) {
        1int
    } else if r.child(2).contains(px, py) {
        2int
    } else {
        3int
    };
    assert(r.child(k).contains(px, py));
    k
}

} // verus!
