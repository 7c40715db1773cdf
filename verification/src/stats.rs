//! What is measured of a region's pixels: their average colour and how far
//! they lie from it.
//!
//! A region reads the part of its rectangle that lies inside the image.
//! Colour distances are whole numbers of thousandths of a channel step. The
//! distance of one pixel is rounded down; their mean is rounded up, so that
//! it is 0 only where every distance is.

use crate::color::black;
use crate::color::Color;
use crate::geometry::Rect;
use crate::pixels::dimensions_of;
use crate::pixels::grid_of;
use crate::pixels::pixel_of;
use crate::pixels::Grid;
use vstd::prelude::*;

verus! {

/// The largest distance between two colours, in thousandths: the root of
/// 3 * 255 * 255, times 1000, rounded down.
pub const MAX_DEVIATION: u32 = 441_672;

/// Whether `r` is the square root of `n`, rounded down.
pub open spec fn is_floor_sqrt(n: int, r: int) -> bool {
    0 <= r && r * r <= n && n < (r + 1) * (r + 1)
}

/// The square root of `n`, rounded down.
pub open spec fn floor_sqrt(n: int) -> int {
    choose|r: int| is_floor_sqrt(n, r)
}

/// The square of the Euclidean distance between two colours in RGB space.
pub open spec fn squared_distance(a: Color, b: Color) -> int {
    (a.r - b.r) * (a.r - b.r) + (a.g - b.g) * (a.g - b.g) + (a.b - b.b) * (a.b - b.b)
}

/// The Euclidean distance between two colours in RGB space, in thousandths,
/// rounded down.
pub open spec fn deviation(a: Color, b: Color) -> int {
    floor_sqrt(1_000_000 * squared_distance(a, b))
}

/// What is added up over the pixels of a rectangle.
pub enum Measure {
    /// One for each pixel.
    Count,
    /// The red channel.
    Red,
    /// The green channel.
    Green,
    /// The blue channel.
    Blue,
    /// The distance to the given colour.
    Deviation(Color),
}

/// What one pixel of colour `p` adds to a sum.
pub open spec fn weigh(m: Measure, p: Color) -> int {
    match m {
        Measure::Count => 1,
        Measure::Red => p.r as int,
        Measure::Green => p.g as int,
        Measure::Blue => p.b as int,
        Measure::Deviation(mean) => deviation(mean, p),
    }
}

/// The sum over the first `rows` pixels of column `x`, from row `y` down.
pub open spec fn column_sum(g: Grid, m: Measure, x: int, y: int, rows: int) -> int
    decreases rows,
{
    if rows <= 0 {
        0
    } else {
        column_sum(g, m, x, y, rows - 1) + weigh(m, g.at(x, y + rows - 1))
    }
}

/// The sum over all pixels of a rectangle.
pub open spec fn rect_sum(g: Grid, m: Measure, r: Rect) -> int
    decreases r.width,
{
    if r.width <= 0 {
        0
    } else {
        rect_sum(g, m, Rect { width: r.width - 1, ..r }) + column_sum(
            g,
            m,
            r.x + r.width - 1,
            r.y,
            r.height,
        )
    }
}

/// The number of pixels in a rectangle.
pub open spec fn area(r: Rect) -> int {
    if r.is_empty() {
        0
    } else {
        r.width * r.height
    }
}

/// The part of a rectangle that lies inside a grid: what a region reads.
pub open spec fn visible(g: Grid, r: Rect) -> Rect {
    r.clamp(g.width, g.height)
}

/// The mean of one channel over the pixels of a rectangle, rounded down.
pub open spec fn channel_mean(g: Grid, m: Measure, r: Rect) -> int {
    rect_sum(g, m, r) / area(r)
}

/// The average colour of a region: for each of red, green and blue the mean
/// over the pixels it reads, rounded down, and full opacity. Black where it
/// reads no pixel.
pub open spec fn average_color(g: Grid, r: Rect) -> Color {
    let v = visible(g, r);
    if v.is_empty() {
        black()
    } else {
        Color {
            r: channel_mean(g, Measure::Red, v) as u8,
            g: channel_mean(g, Measure::Green, v) as u8,
            b: channel_mean(g, Measure::Blue, v) as u8,
            a: 255,
        }
    }
}

/// The sum, over the pixels that a region reads, of their distance to its
/// average colour.
pub open spec fn total_deviation(g: Grid, r: Rect) -> int {
    rect_sum(g, Measure::Deviation(average_color(g, r)), visible(g, r))
}

/// The non-uniformity of a region: the mean, over the pixels it reads, of
/// their distance to its average colour, in thousandths and rounded up.
/// Zero where it reads no pixel.
pub open spec fn non_uniformity(g: Grid, r: Rect) -> int {
    let v = visible(g, r);
    if v.is_empty() {
        0
    } else {
        (total_deviation(g, r) + area(v) - 1) / area(v)
    }
}

/// Whether two colours have the same red, green and blue.
pub open spec fn same_rgb(a: Color, b: Color) -> bool {
    a.r == b.r && a.g == b.g && a.b == b.b
}

/// Whether all pixels that a region reads have the same red, green and blue.
pub open spec fn is_uniform(g: Grid, r: Rect) -> bool {
    forall|x1: int, y1: int, x2: int, y2: int|
        visible(g, r).contains(x1, y1) && visible(g, r).contains(x2, y2) ==> same_rgb(
            #[trigger] g.at(x1, y1),
            #[trigger] g.at(x2, y2),
        )
}

/// A number has one rounded-down square root.
pub proof fn lemma_floor_sqrt_unique(n: int, r: int)
    requires
        is_floor_sqrt(n, r),
    ensures
        floor_sqrt(n) == r,
{
    let s = floor_sqrt(n);
    assert(is_floor_sqrt(n, s));
    assert(s == r) by (nonlinear_arith)
        requires
            is_floor_sqrt(n, s),
            is_floor_sqrt(n, r),
    {
        if s < r {
            assert((s + 1) * (s + 1) <= r * r);
        }
        if r < s {
            assert((r + 1) * (r + 1) <= s * s);
        }
    }
}

/// No distance between two colours is negative or above `MAX_DEVIATION`, and
/// a colour is at distance 0 from any colour with the same red, green and
/// blue.
pub proof fn lemma_deviation_bounds(a: Color, b: Color)
    ensures
        0 <= deviation(a, b) <= MAX_DEVIATION,
        a.r == b.r && a.g == b.g && a.b == b.b ==> deviation(a, b) == 0,
{
    let d = squared_distance(a, b);
    assert(0 <= d <= 195_075) by (nonlinear_arith)
        requires
            d == squared_distance(a, b),
            -255 <= a.r - b.r <= 255,
            -255 <= a.g - b.g <= 255,
            -255 <= a.b - b.b <= 255,
    {
        let x = a.r - b.r;
        let y = a.g - b.g;
        let z = a.b - b.b;
        assert(0 <= x * x <= 65025);
        assert(0 <= y * y <= 65025);
        assert(0 <= z * z <= 65025);
    }
    lemma_floor_sqrt_exists(1_000_000 * d);
    let s = deviation(a, b);
    assert(is_floor_sqrt(1_000_000 * d, s));
    assert(s <= 441_672) by (nonlinear_arith)
        requires
            0 <= s,
            s * s <= 1_000_000 * d,
            d <= 195_075,
    {
        if s >= 441_673 {
            assert(s * s >= 441_673 * 441_673);
        }
    }
    if a.r == b.r && a.g == b.g && a.b == b.b {
        assert(d == 0) by (nonlinear_arith)
            requires
                d == squared_distance(a, b),
                a.r - b.r == 0,
                a.g - b.g == 0,
                a.b - b.b == 0,
        ;
        assert(is_floor_sqrt(0, 0));
        lemma_floor_sqrt_unique(0, 0);
    }
}

/// Every number from 0 on has a rounded-down square root.
pub proof fn lemma_floor_sqrt_exists(n: int)
    requires
        n >= 0,
    ensures
        is_floor_sqrt(n, floor_sqrt(n)),
    decreases n,
{
    if n == 0 {
        assert(is_floor_sqrt(0, 0));
    } else {
        lemma_floor_sqrt_exists(n - 1);
        let r = floor_sqrt(n - 1);
        if n < (r + 1) * (r + 1) {
            assert(is_floor_sqrt(n, r));
        } else {
            assert(is_floor_sqrt(n, r + 1)) by (nonlinear_arith)
                requires
                    0 <= r,
                    r * r <= n - 1,
                    n - 1 < (r + 1) * (r + 1),
                    n >= (r + 1) * (r + 1),
            ;
        }
    }
}

/// A sum over a column lies between the number of its pixels times the least
/// and times the greatest that one pixel adds.
pub proof fn lemma_column_sum_bounds(g: Grid, m: Measure, x: int, y: int, rows: int, lo: int, hi: int)
    requires
        rows >= 0,
        forall|py: int| y <= py < y + rows ==> lo <= #[trigger] weigh(m, g.at(x, py)) <= hi,
    ensures
        lo * rows <= column_sum(g, m, x, y, rows) <= hi * rows,
    decreases rows,
{
    if rows > 0 {
        lemma_column_sum_bounds(g, m, x, y, rows - 1, lo, hi);
        let w = weigh(m, g.at(x, y + rows - 1));
        assert(lo <= w <= hi);
        assert(lo * rows == lo * (rows - 1) + lo) by (nonlinear_arith);
        assert(hi * rows == hi * (rows - 1) + hi) by (nonlinear_arith);
    } else {
        assert(lo * rows == 0 && hi * rows == 0) by (nonlinear_arith)
            requires
                rows == 0,
        ;
    }
}

/// A sum over a rectangle lies between the number of its pixels times the
/// least and times the greatest that one pixel adds.
pub proof fn lemma_rect_sum_bounds(g: Grid, m: Measure, r: Rect, lo: int, hi: int)
    requires
        r.width >= 0,
        r.height >= 0,
        forall|px: int, py: int| r.contains(px, py) ==> lo <= #[trigger] weigh(m, g.at(px, py)) <= hi,
    ensures
        lo * area(r) <= rect_sum(g, m, r) <= hi * area(r),
    decreases r.width,
{
    if r.width > 0 {
        let rest = Rect { width: r.width - 1, ..r };
        assert forall|px: int, py: int| rest.contains(px, py) implies lo <= #[trigger] weigh(
            m,
            g.at(px, py),
        ) <= hi by {
            assert(r.contains(px, py));
        }
        lemma_rect_sum_bounds(g, m, rest, lo, hi);
        let x = r.x + r.width - 1;
        assert forall|py: int| r.y <= py < r.y + r.height implies lo <= #[trigger] weigh(
            m,
            g.at(x, py),
        ) <= hi by {
            assert(r.contains(x, py));
        }
        lemma_column_sum_bounds(g, m, x, r.y, r.height, lo, hi);
        let w = r.width;
        let h = r.height;
        assert(area(r) == w * h && area(rest) == (w - 1) * h) by (nonlinear_arith)
            requires
                w > 0,
                h >= 0,
                area(r) == (if w <= 0 || h <= 0 {
                    0
                } else {
                    w * h
                }),
                area(rest) == (if w - 1 <= 0 || h <= 0 {
                    0
                } else {
                    (w - 1) * h
                }),
        ;
        assert(lo * (w * h) == lo * ((w - 1) * h) + lo * h) by (nonlinear_arith);
        assert(hi * (w * h) == hi * ((w - 1) * h) + hi * h) by (nonlinear_arith);
    } else {
        assert(area(r) == 0);
        assert(lo * area(r) == 0 && hi * area(r) == 0) by (nonlinear_arith)
            requires
                area(r) == 0,
        ;
    }
}

/// Counting one for each pixel gives the number of pixels.
pub proof fn lemma_count_is_area(g: Grid, r: Rect)
    requires
        r.width >= 0,
        r.height >= 0,
    ensures
        rect_sum(g, Measure::Count, r) == area(r),
{
    lemma_rect_sum_bounds(g, Measure::Count, r, 1, 1);
    assert(1 * area(r) == area(r));
}

/// A mean lies between the least and the greatest of what it is the mean of.
pub proof fn lemma_mean_between(sum: int, n: int, lo: int, hi: int)
    by (nonlinear_arith)
    requires
        n > 0,
        lo * n <= sum <= hi * n,
    ensures
        lo <= sum / n <= hi,
{
}

/// A mean that is rounded up lies between the least and the greatest of what
/// it is the mean of, too.
pub proof fn lemma_mean_up_between(sum: int, n: int, lo: int, hi: int)
    by (nonlinear_arith)
    requires
        n > 0,
        lo * n <= sum <= hi * n,
    ensures
        lo <= (sum + n - 1) / n <= hi,
{
}

/// A mean that is rounded up is above a whole number exactly when the sum is
/// above that number times the count.
pub proof fn lemma_mean_up_above(sum: int, n: int, t: int)
    by (nonlinear_arith)
    requires
        n > 0,
    ensures
        (sum + n - 1) / n > t <==> sum > t * n,
{
}

/// Where a region reads pixels, its non-uniformity is above a threshold
/// exactly when the sum of the distances is above the threshold times the
/// number of pixels: the mean is above it, however little.
pub proof fn lemma_threshold_compares_sums(g: Grid, r: Rect, threshold: int)
    requires
        !visible(g, r).is_empty(),
    ensures
        non_uniformity(g, r) > threshold <==> total_deviation(g, r) > threshold * area(
            visible(g, r),
        ),
{
    let v = visible(g, r);
    assert(area(v) > 0) by (nonlinear_arith)
        requires
            v.width > 0,
            v.height > 0,
            area(v) == v.width * v.height,
    ;
    lemma_mean_up_above(total_deviation(g, r), area(v), threshold);
}

/// Each of red, green and blue of a region's average colour lies between the
/// least and the greatest value of that channel among the pixels that the
/// region reads, where it reads any: no bound that holds of every pixel fails
/// for the average.
pub proof fn lemma_average_between_extremes(g: Grid, r: Rect, m: Measure, lo: int, hi: int)
    requires
        m == Measure::Red || m == Measure::Green || m == Measure::Blue,
        !visible(g, r).is_empty(),
        forall|px: int, py: int|
            visible(g, r).contains(px, py) ==> lo <= #[trigger] weigh(m, g.at(px, py)) <= hi,
    ensures
        lo <= weigh(m, average_color(g, r)) <= hi,
{
    let v = visible(g, r);
    assert(area(v) > 0) by (nonlinear_arith)
        requires
            v.width > 0,
            v.height > 0,
            area(v) == v.width * v.height,
    ;
    lemma_rect_sum_bounds(g, m, v, lo, hi);
    lemma_mean_between(rect_sum(g, m, v), area(v), lo, hi);
    lemma_rect_sum_bounds(g, m, v, 0, 255);
    lemma_mean_between(rect_sum(g, m, v), area(v), 0, 255);
}

/// A region whose pixels all have the same red, green and blue has that
/// colour, opaque, as its average, and non-uniformity 0.
pub proof fn lemma_uniform_region(g: Grid, r: Rect, c: Color)
    requires
        !visible(g, r).is_empty(),
        forall|px: int, py: int|
            visible(g, r).contains(px, py) ==> {
                let p = #[trigger] g.at(px, py);
                p.r == c.r && p.g == c.g && p.b == c.b
            },
    ensures
        average_color(g, r) == (Color { a: 255, ..c }),
        non_uniformity(g, r) == 0,
{
    let v = visible(g, r);
    assert forall|px: int, py: int| v.contains(px, py) implies c.r <= #[trigger] weigh(
        Measure::Red,
        g.at(px, py),
    ) <= c.r by {}
    assert forall|px: int, py: int| v.contains(px, py) implies c.g <= #[trigger] weigh(
        Measure::Green,
        g.at(px, py),
    ) <= c.g by {}
    assert forall|px: int, py: int| v.contains(px, py) implies c.b <= #[trigger] weigh(
        Measure::Blue,
        g.at(px, py),
    ) <= c.b by {}
    lemma_average_between_extremes(g, r, Measure::Red, c.r as int, c.r as int);
    lemma_average_between_extremes(g, r, Measure::Green, c.g as int, c.g as int);
    lemma_average_between_extremes(g, r, Measure::Blue, c.b as int, c.b as int);
    let mean = average_color(g, r);
    assert(mean == (Color { a: 255, ..c }));
    let m = Measure::Deviation(mean);
    assert forall|px: int, py: int| v.contains(px, py) implies 0 <= #[trigger] weigh(
        m,
        g.at(px, py),
    ) <= 0 by {
        let p = g.at(px, py);
        lemma_deviation_bounds(mean, p);
    }
    assert(area(v) > 0) by (nonlinear_arith)
        requires
            v.width > 0,
            v.height > 0,
            area(v) == v.width * v.height,
    ;
    lemma_rect_sum_bounds(g, m, v, 0, 0);
    lemma_mean_up_between(rect_sum(g, m, v), area(v), 0, 0);
}

/// Two colours at distance 0 have the same red, green and blue.
pub proof fn lemma_zero_deviation(a: Color, b: Color)
    requires
        deviation(a, b) == 0,
    ensures
        same_rgb(a, b),
{
    let d = squared_distance(a, b);
    lemma_deviation_bounds(a, b);
    let x = a.r - b.r;
    let y = a.g - b.g;
    let z = a.b - b.b;
    assert(d >= 0 && x * x >= 0 && y * y >= 0 && z * z >= 0) by (nonlinear_arith)
        requires
            d == x * x + y * y + z * z,
    ;
    lemma_floor_sqrt_exists(1_000_000 * d);
    assert(is_floor_sqrt(1_000_000 * d, 0));
    assert(d == 0);
    assert(x == 0 && y == 0 && z == 0) by (nonlinear_arith)
        requires
            x * x + y * y + z * z == 0,
    {
        if x != 0 {
            assert(x * x >= 1);
            assert(y * y >= 0 && z * z >= 0);
        }
        if y != 0 {
            assert(y * y >= 1);
            assert(x * x >= 0 && z * z >= 0);
        }
        if z != 0 {
            assert(z * z >= 1);
            assert(x * x >= 0 && y * y >= 0);
        }
    }
}

proof fn lemma_zero_column(g: Grid, m: Measure, x: int, y: int, rows: int, hi: int, py: int)
    requires
        rows >= 0,
        forall|qy: int| y <= qy < y + rows ==> 0 <= #[trigger] weigh(m, g.at(x, qy)) <= hi,
        column_sum(g, m, x, y, rows) == 0,
        y <= py < y + rows,
    ensures
        weigh(m, g.at(x, py)) == 0,
    decreases rows,
{
    lemma_column_sum_bounds(g, m, x, y, rows - 1, 0, hi);
    assert(0 * (rows - 1) == 0);
    assert(weigh(m, g.at(x, y + rows - 1)) >= 0);
    if py < y + rows - 1 {
        lemma_zero_column(g, m, x, y, rows - 1, hi, py);
    }
}

/// In a sum of 0 over a rectangle to which no pixel adds less than 0, every
/// pixel adds 0.
pub proof fn lemma_zero_sum(g: Grid, m: Measure, r: Rect, hi: int, px: int, py: int)
    requires
        r.width >= 0,
        r.height >= 0,
        forall|qx: int, qy: int| r.contains(qx, qy) ==> 0 <= #[trigger] weigh(m, g.at(qx, qy)) <= hi,
        rect_sum(g, m, r) == 0,
        r.contains(px, py),
    ensures
        weigh(m, g.at(px, py)) == 0,
    decreases r.width,
{
    let rest = Rect { width: r.width - 1, ..r };
    let x = r.x + r.width - 1;
    assert forall|qx: int, qy: int| rest.contains(qx, qy) implies 0 <= #[trigger] weigh(
        m,
        g.at(qx, qy),
    ) <= hi by {
        assert(r.contains(qx, qy));
    }
    assert forall|qy: int| r.y <= qy < r.y + r.height implies 0 <= #[trigger] weigh(
        m,
        g.at(x, qy),
    ) <= hi by {
        assert(r.contains(x, qy));
    }
    lemma_rect_sum_bounds(g, m, rest, 0, hi);
    lemma_column_sum_bounds(g, m, x, r.y, r.height, 0, hi);
    assert(0 * area(rest) == 0 && 0 * r.height == 0);
    if px == x {
        lemma_zero_column(g, m, x, r.y, r.height, hi, py);
    } else {
        lemma_zero_sum(g, m, rest, hi, px, py);
    }
}

/// The non-uniformity of a region is 0 exactly when all pixels it reads have
/// the same red, green and blue, which holds where it reads none.
pub proof fn lemma_flat_iff_uniform(g: Grid, r: Rect)
    ensures
        non_uniformity(g, r) == 0 <==> is_uniform(g, r),
        0 <= non_uniformity(g, r) <= MAX_DEVIATION,
{
    let v = visible(g, r);
    if !v.is_empty() {
        let mean = average_color(g, r);
        let m = Measure::Deviation(mean);
        assert forall|qx: int, qy: int| v.contains(qx, qy) implies 0 <= #[trigger] weigh(
            m,
            g.at(qx, qy),
        ) <= MAX_DEVIATION by {
            lemma_deviation_bounds(mean, g.at(qx, qy));
        }
        assert(area(v) > 0) by (nonlinear_arith)
            requires
                v.width > 0,
                v.height > 0,
                area(v) == v.width * v.height,
        ;
        lemma_rect_sum_bounds(g, m, v, 0, MAX_DEVIATION as int);
        lemma_mean_up_between(rect_sum(g, m, v), area(v), 0, MAX_DEVIATION as int);
        if is_uniform(g, r) {
            let c = g.at(v.x, v.y);
            assert(v.contains(v.x, v.y));
            assert forall|qx: int, qy: int| v.contains(qx, qy) implies {
                let p = #[trigger] g.at(qx, qy);
                p.r == c.r && p.g == c.g && p.b == c.b
            } by {
                assert(same_rgb(g.at(qx, qy), g.at(v.x, v.y)));
            }
            lemma_uniform_region(g, r, c);
        }
        if non_uniformity(g, r) == 0 {
            lemma_mean_up_above(rect_sum(g, m, v), area(v), 0);
            assert(0 * area(v) == 0);
            assert(rect_sum(g, m, v) == 0);
            assert forall|x1: int, y1: int, x2: int, y2: int|
                v.contains(x1, y1) && v.contains(x2, y2) implies same_rgb(
                #[trigger] g.at(x1, y1),
                #[trigger] g.at(x2, y2),
            ) by {
                lemma_zero_sum(g, m, v, MAX_DEVIATION as int, x1, y1);
                lemma_zero_sum(g, m, v, MAX_DEVIATION as int, x2, y2);
                lemma_zero_deviation(mean, g.at(x1, y1));
                lemma_zero_deviation(mean, g.at(x2, y2));
            }
        }
    }
}

/// The square root of `n`, rounded down.
pub fn isqrt(n: u64) -> (r: u64)
    ensures
        is_floor_sqrt(n as int, r as int),
        r == floor_sqrt(n as int),
{
    let mut lo: u64 = 0;
    let mut hi: u64 = 0x1_0000_0000;
    while hi - lo > 1
        invariant
            lo < hi <= 0x1_0000_0000,
            lo * lo <= n,
            n < hi * hi,
        decreases hi - lo,
    {
        let mid: u64 = lo + (hi - lo) / 2;
        assert(mid * mid <= 0xFFFF_FFFF * 0xFFFF_FFFF) by (nonlinear_arith)
            requires
                0 <= mid <= 0xFFFF_FFFF,
        ;
        if mid * mid <= n {
            lo = mid;
        } else {
            hi = mid;
        }
    }
    proof {
        assert(hi == lo + 1);
        lemma_floor_sqrt_unique(n as int, lo as int);
    }
    lo
}

/// The distance between two colours, in thousandths, rounded down.
pub fn color_distance(a: Color, b: Color) -> (d: u32)
    ensures
        d == deviation(a, b),
        d <= MAX_DEVIATION,
{
    let dr: u64 = (if a.r >= b.r { a.r - b.r } else { b.r - a.r }) as u64;
    let dg: u64 = (if a.g >= b.g { a.g - b.g } else { b.g - a.g }) as u64;
    let db: u64 = (if a.b >= b.b { a.b - b.b } else { b.b - a.b }) as u64;
    assert(dr * dr <= 65025 && dr * dr == (a.r - b.r) * (a.r - b.r)) by (nonlinear_arith)
        requires
            dr <= 255,
            dr == a.r - b.r || dr == b.r - a.r,
    ;
    assert(dg * dg <= 65025 && dg * dg == (a.g - b.g) * (a.g - b.g)) by (nonlinear_arith)
        requires
            dg <= 255,
            dg == a.g - b.g || dg == b.g - a.g,
    ;
    assert(db * db <= 65025 && db * db == (a.b - b.b) * (a.b - b.b)) by (nonlinear_arith)
        requires
            db <= 255,
            db == a.b - b.b || db == b.b - a.b,
    ;
    let square: u64 = dr * dr + dg * dg + db * db;
    let root: u64 = isqrt(1_000_000 * square);
    proof {
        lemma_deviation_bounds(a, b);
    }
    root as u32
}

/// Where a span of `len` from `start` ends when it is cut off at `bound`.
pub(crate) fn clamp_end(start: u32, len: u32, bound: u32) -> (end: u32)
    ensures
        end as int == (if start + len <= bound {
            start + len
        } else {
            bound as int
        }),
{
    if len <= bound && start <= bound - len {
        start + len
    } else {
        bound
    }
}

/// The average colour of the region `x, y, width, height` of an image.
pub(crate) fn average_in(img: &image::DynamicImage, x: u32, y: u32, width: u32, height: u32) -> (c:
    Color)
    ensures
        c == average_color(
            grid_of(*img),
            Rect { x: x as int, y: y as int, width: width as int, height: height as int },
        ),
{
    let dims = dimensions_of(img);
    let end_x: u32 = clamp_end(x, width, dims.0);
    let end_y: u32 = clamp_end(y, height, dims.1);
    if end_x <= x || end_y <= y {
        return Color::black();
    }
    let ghost g = grid_of(*img);
    let ghost v = Rect { x: x as int, y: y as int, width: end_x - x, height: end_y - y };
    let mut total_red: u128 = 0;
    let mut total_green: u128 = 0;
    let mut total_blue: u128 = 0;
    let mut pixel_count: u128 = 0;
    let mut cx: u32 = x;
    while cx < end_x
        invariant
            x <= cx <= end_x,
            y < end_y,
            end_x <= dims.0,
            end_y <= dims.1,
            dims == crate::pixels::image_dimensions(*img),
            g == grid_of(*img),
            v == (Rect { x: x as int, y: y as int, width: end_x - x, height: end_y - y }),
            total_red == rect_sum(g, Measure::Red, Rect { width: cx - x, ..v }),
            total_green == rect_sum(g, Measure::Green, Rect { width: cx - x, ..v }),
            total_blue == rect_sum(g, Measure::Blue, Rect { width: cx - x, ..v }),
            pixel_count == rect_sum(g, Measure::Count, Rect { width: cx - x, ..v }),
            total_red <= 255 * pixel_count,
            total_green <= 255 * pixel_count,
            total_blue <= 255 * pixel_count,
            pixel_count <= (cx - x) * 0x1_0000_0000,
        decreases end_x - cx,
    {
        let ghost before = Rect { width: cx - x, ..v };
        let ghost after = Rect { width: cx - x + 1, ..v };
        assert(before == (Rect { width: after.width - 1, ..after }));
        let mut cy: u32 = y;
        while cy < end_y
            invariant
                y <= cy <= end_y,
                x <= cx < end_x,
                end_x <= dims.0,
                end_y <= dims.1,
                dims == crate::pixels::image_dimensions(*img),
                g == grid_of(*img),
                total_red == rect_sum(g, Measure::Red, before) + column_sum(
                    g,
                    Measure::Red,
                    cx as int,
                    y as int,
                    cy - y,
                ),
                total_green == rect_sum(g, Measure::Green, before) + column_sum(
                    g,
                    Measure::Green,
                    cx as int,
                    y as int,
                    cy - y,
                ),
                total_blue == rect_sum(g, Measure::Blue, before) + column_sum(
                    g,
                    Measure::Blue,
                    cx as int,
                    y as int,
                    cy - y,
                ),
                pixel_count == rect_sum(g, Measure::Count, before) + column_sum(
                    g,
                    Measure::Count,
                    cx as int,
                    y as int,
                    cy - y,
                ),
                total_red <= 255 * pixel_count,
                total_green <= 255 * pixel_count,
                total_blue <= 255 * pixel_count,
                pixel_count <= (cx - x) * 0x1_0000_0000 + (cy - y),
            decreases end_y - cy,
        {
            let p = pixel_of(img, cx, cy);
            assert(p == g.at(cx as int, y + (cy - y + 1) - 1));
            total_red = total_red + p.r as u128;
            total_green = total_green + p.g as u128;
            total_blue = total_blue + p.b as u128;
            pixel_count = pixel_count + 1;
            cy = cy + 1;
        }
        assert(after.x + after.width - 1 == cx && after.y == y && after.height == end_y - y);
        cx = cx + 1;
    }
    proof {
        assert(v == (Rect { width: cx - x, ..v }));
        assert(v == visible(
            g,
            Rect { x: x as int, y: y as int, width: width as int, height: height as int },
        ));
        lemma_count_is_area(g, v);
        assert(area(v) > 0) by (nonlinear_arith)
            requires
                v.width > 0,
                v.height > 0,
                area(v) == v.width * v.height,
        ;
        lemma_mean_between(total_red as int, pixel_count as int, 0, 255);
        lemma_mean_between(total_green as int, pixel_count as int, 0, 255);
        lemma_mean_between(total_blue as int, pixel_count as int, 0, 255);
    }
    Color {
        r: (total_red / pixel_count) as u8,
        g: (total_green / pixel_count) as u8,
        b: (total_blue / pixel_count) as u8,
        a: 255,
    }
}

/// The non-uniformity of the region `x, y, width, height` of an image.
pub(crate) fn non_uniformity_in(
    img: &image::DynamicImage,
    x: u32,
    y: u32,
    width: u32,
    height: u32,
) -> (d: u32)
    ensures
        d == non_uniformity(
            grid_of(*img),
            Rect { x: x as int, y: y as int, width: width as int, height: height as int },
        ),
        d <= MAX_DEVIATION,
        d == 0 <==> is_uniform(
            grid_of(*img),
            Rect { x: x as int, y: y as int, width: width as int, height: height as int },
        ),
{
    let mean = average_in(img, x, y, width, height);
    let dims = dimensions_of(img);
    let end_x: u32 = clamp_end(x, width, dims.0);
    let end_y: u32 = clamp_end(y, height, dims.1);
    proof {
        lemma_flat_iff_uniform(
            grid_of(*img),
            Rect { x: x as int, y: y as int, width: width as int, height: height as int },
        );
    }
    if end_x <= x || end_y <= y {
        return 0;
    }
    let ghost g = grid_of(*img);
    let ghost v = Rect { x: x as int, y: y as int, width: end_x - x, height: end_y - y };
    let ghost m = Measure::Deviation(mean);
    let mut total: u128 = 0;
    let mut pixel_count: u128 = 0;
    let mut cx: u32 = x;
    while cx < end_x
        invariant
            x <= cx <= end_x,
            y < end_y,
            end_x <= dims.0,
            end_y <= dims.1,
            dims == crate::pixels::image_dimensions(*img),
            g == grid_of(*img),
            m == Measure::Deviation(mean),
            v == (Rect { x: x as int, y: y as int, width: end_x - x, height: end_y - y }),
            total == rect_sum(g, m, Rect { width: cx - x, ..v }),
            pixel_count == rect_sum(g, Measure::Count, Rect { width: cx - x, ..v }),
            total <= MAX_DEVIATION * pixel_count,
            pixel_count <= (cx - x) * 0x1_0000_0000,
        decreases end_x - cx,
    {
        let ghost before = Rect { width: cx - x, ..v };
        let ghost after = Rect { width: cx - x + 1, ..v };
        assert(before == (Rect { width: after.width - 1, ..after }));
        let mut cy: u32 = y;
        while cy < end_y
            invariant
                y <= cy <= end_y,
                x <= cx < end_x,
                end_x <= dims.0,
                end_y <= dims.1,
                dims == crate::pixels::image_dimensions(*img),
                g == grid_of(*img),
                m == Measure::Deviation(mean),
                total == rect_sum(g, m, before) + column_sum(g, m, cx as int, y as int, cy - y),
                pixel_count == rect_sum(g, Measure::Count, before) + column_sum(
                    g,
                    Measure::Count,
                    cx as int,
                    y as int,
                    cy - y,
                ),
                total <= MAX_DEVIATION * pixel_count,
                pixel_count <= (cx - x) * 0x1_0000_0000 + (cy - y),
            decreases end_y - cy,
        {
            let p = pixel_of(img, cx, cy);
            assert(p == g.at(cx as int, y + (cy - y + 1) - 1));
            let d = color_distance(mean, p);
            total = total + d as u128;
            pixel_count = pixel_count + 1;
            cy = cy + 1;
        }
        assert(after.x + after.width - 1 == cx && after.y == y && after.height == end_y - y);
        cx = cx + 1;
    }
    proof {
        assert(v == (Rect { width: cx - x, ..v }));
        assert(v == visible(
            g,
            Rect { x: x as int, y: y as int, width: width as int, height: height as int },
        ));
        lemma_count_is_area(g, v);
        assert(area(v) > 0) by (nonlinear_arith)
            requires
                v.width > 0,
                v.height > 0,
                area(v) == v.width * v.height,
        ;
        lemma_mean_up_between(total as int, pixel_count as int, 0, MAX_DEVIATION as int);
    }
    ((total + pixel_count - 1) / pixel_count) as u32
}

} // verus!
