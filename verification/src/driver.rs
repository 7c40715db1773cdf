//! The decomposition: from the root region to the leaves of its quadtree.
//!
//! Regions are taken from a queue in the order in which they entered it. A
//! region that has no pixel in common with the root is dropped. One that is
//! to be split puts its four children at the end of the queue. Any other is
//! a leaf: it gets its average colour and is handed out. So the leaves come
//! level by level, and within a level from the children of earlier regions
//! to those of later ones. The traversal stops when a given number of leaves
//! has been handed out.

use crate::config::QuadConfig;
use crate::geometry::Rect;
use crate::laws::all_leaves_of;
use crate::laws::all_placed;
use crate::laws::lemma_leaves_left;
use crate::laws::lemma_level_keeps_place;
use crate::laws::lemma_leaves_are_terminal;
use crate::policy::should_subdivide;
use crate::policy::wants_split;
use crate::quad::Quad;
use crate::quad::QuadView;
use crate::stats::average_color;
use std::collections::VecDeque;
use vstd::prelude::*;

verus! {

/// The number of leaves at which `subdivide_nodes` stops.
pub const MAX_QUADS: usize = 100_000;

/// Whether a region has a pixel in common with the root's rectangle.
pub open spec fn is_live(root: Rect, v: QuadView) -> bool {
    v.rect.overlaps(root)
}

/// The region as a leaf: painted in its average colour.
pub open spec fn resolved(v: QuadView) -> QuadView {
    v.painted(average_color(v.grid, v.rect))
}

/// What a region puts into the queue: its four children if it is split.
pub open spec fn offspring(root: Rect, v: QuadView, config: QuadConfig) -> Seq<QuadView> {
    if is_live(root, v) && wants_split(v, config) {
        seq![v.child(0), v.child(1), v.child(2), v.child(3)]
    } else {
        Seq::empty()
    }
}

/// What a region hands out: itself as a leaf if it is not split.
pub open spec fn yield_of(root: Rect, v: QuadView, config: QuadConfig) -> Seq<QuadView> {
    if is_live(root, v) && !wants_split(v, config) {
        seq![resolved(v)]
    } else {
        Seq::empty()
    }
}

/// The level below `level`: the children of its regions, in order.
pub open spec fn next_level(root: Rect, level: Seq<QuadView>, config: QuadConfig) -> Seq<QuadView>
    decreases level.len(),
{
    if level.len() == 0 {
        Seq::empty()
    } else {
        next_level(root, level.drop_last(), config) + offspring(root, level.last(), config)
    }
}

/// The leaves among the regions of `level`, in order.
pub open spec fn level_leaves(root: Rect, level: Seq<QuadView>, config: QuadConfig) -> Seq<
    QuadView,
>
    decreases level.len(),
{
    if level.len() == 0 {
        Seq::empty()
    } else {
        level_leaves(root, level.drop_last(), config) + yield_of(root, level.last(), config)
    }
}

/// The leaves of `level` and of the `levels - 1` levels below it, level by
/// level.
pub open spec fn level_order(
    root: Rect,
    level: Seq<QuadView>,
    config: QuadConfig,
    levels: nat,
) -> Seq<QuadView>
    decreases levels,
{
    if levels == 0 || level.len() == 0 {
        Seq::empty()
    } else {
        level_leaves(root, level, config) + level_order(
            root,
            next_level(root, level, config),
            config,
            (levels - 1) as nat,
        )
    }
}

/// The number of levels that the tree below a region can have: no region at
/// or below the maximal depth is split.
pub open spec fn levels_below(v: QuadView, config: QuadConfig) -> nat {
    if v.depth <= config.max_depth {
        (config.max_depth - v.depth + 1) as nat
    } else {
        1
    }
}

/// All leaves of the quadtree of `root`, level by level.
pub open spec fn all_leaves(root: QuadView, config: QuadConfig) -> Seq<QuadView> {
    level_order(root.rect, seq![root], config, levels_below(root, config))
}

/// The leaves that a traversal hands out which stops at `cap` leaves: all of
/// them, or the first `cap`.
pub open spec fn decompose(root: QuadView, config: QuadConfig, cap: nat) -> Seq<QuadView> {
    let all = all_leaves(root, config);
    if all.len() <= cap {
        all
    } else {
        all.take(cap as int)
    }
}

/// Whether a traversal that stops at `cap` leaves leaves any out.
pub open spec fn is_cut_short(root: QuadView, config: QuadConfig, cap: nat) -> bool {
    all_leaves(root, config).len() > cap
}

/// What a sequence of regions is: what each of them is.
pub open spec fn views(s: Seq<Quad>) -> Seq<QuadView> {
    s.map_values(|q: Quad| q@)
}

/// The level below a level that ends in `v` ends in the children of `v`.
pub proof fn lemma_next_level_push(root: Rect, level: Seq<QuadView>, v: QuadView, config: QuadConfig)
    ensures
        next_level(root, level.push(v), config) == next_level(root, level, config) + offspring(
            root,
            v,
            config,
        ),
        level_leaves(root, level.push(v), config) == level_leaves(root, level, config) + yield_of(
            root,
            v,
            config,
        ),
{
    assert(level.push(v).drop_last() =~= level);
    assert(level.push(v).last() == v);
}

/// The leaves, and the children, of two runs of regions one after the other
/// are those of the first followed by those of the second.
pub proof fn lemma_levels_concat(root: Rect, a: Seq<QuadView>, b: Seq<QuadView>, config: QuadConfig)
    ensures
        next_level(root, a + b, config) == next_level(root, a, config) + next_level(
            root,
            b,
            config,
        ),
        level_leaves(root, a + b, config) == level_leaves(root, a, config) + level_leaves(
            root,
            b,
            config,
        ),
    decreases b.len(),
{
    if b.len() == 0 {
        assert(a + b =~= a);
        assert(next_level(root, a, config) + Seq::<QuadView>::empty() =~= next_level(
            root,
            a,
            config,
        ));
        assert(level_leaves(root, a, config) + Seq::<QuadView>::empty() =~= level_leaves(
            root,
            a,
            config,
        ));
    } else {
        let b0 = b.drop_last();
        let v = b.last();
        assert(b =~= b0.push(v));
        assert(a + b =~= (a + b0).push(v));
        lemma_levels_concat(root, a, b0, config);
        lemma_next_level_push(root, a + b0, v, config);
        lemma_next_level_push(root, b0, v, config);
        assert(next_level(root, a + b, config) =~= next_level(root, a, config) + next_level(
            root,
            b,
            config,
        ));
        assert(level_leaves(root, a + b, config) =~= level_leaves(root, a, config) + level_leaves(
            root,
            b,
            config,
        ));
    }
}

/// The regions of the level below a level are one deeper than the least deep
/// of its regions, at least; and a level at or below the maximal depth has no
/// level below it.
pub proof fn lemma_next_level_deeper(root: Rect, level: Seq<QuadView>, config: QuadConfig, d: int)
    requires
        forall|j: int| 0 <= j < level.len() ==> (#[trigger] level[j]).depth >= d,
    ensures
        forall|j: int|
            0 <= j < next_level(root, level, config).len() ==> (#[trigger] next_level(
                root,
                level,
                config,
            )[j]).depth >= d + 1,
        d >= config.max_depth ==> next_level(root, level, config).len() == 0,
    decreases level.len(),
{
    if level.len() > 0 {
        let rest = level.drop_last();
        let v = level.last();
        assert forall|j: int| 0 <= j < rest.len() implies (#[trigger] rest[j]).depth >= d by {
            assert(rest[j] == level[j]);
        }
        lemma_next_level_deeper(root, rest, config, d);
        let a = next_level(root, rest, config);
        let b = offspring(root, v, config);
        assert(v == level[level.len() - 1]);
        assert(next_level(root, level, config) == a + b);
        assert forall|j: int| 0 <= j < (a + b).len() implies (#[trigger] (a + b)[j]).depth >= d
            + 1 by {
            if j < a.len() {
                assert((a + b)[j] == a[j]);
            } else {
                let k = j - a.len();
                assert((a + b)[j] == b[k]);
                assert(b[k] == v.child(k));
            }
        }
    }
}

/// Whether the region lies apart from the rectangle `x, y, width, height`.
fn is_outside(quad: &Quad, x: u32, y: u32, width: u32, height: u32) -> (outside: bool)
    ensures
        outside == !quad@.rect.overlaps(
            Rect { x: x as int, y: y as int, width: width as int, height: height as int },
        ),
{
    let qx: u64 = quad.x() as u64;
    let qy: u64 = quad.y() as u64;
    let qw: u64 = quad.width() as u64;
    let qh: u64 = quad.height() as u64;
    let overlaps = qw > 0 && qh > 0 && width > 0 && height > 0 && qx < x as u64 + width as u64 && (
    x as u64) < qx + qw && qy < y as u64 + height as u64 && (y as u64) < qy + qh;
    !overlaps
}

/// Whether a region in the queue has a pixel in common with the rectangle
/// `x, y, width, height`.
fn any_live(queue: &VecDeque<Quad>, x: u32, y: u32, width: u32, height: u32) -> (found: bool)
    ensures
        found == exists|j: int|
            0 <= j < views(queue@).len() && is_live(
                Rect { x: x as int, y: y as int, width: width as int, height: height as int },
                #[trigger] views(queue@)[j],
            ),
{
    let ghost root = Rect { x: x as int, y: y as int, width: width as int, height: height as int };
    let mut j: usize = 0;
    while j < queue.len()
        invariant
            j <= queue@.len(),
            root == (Rect { x: x as int, y: y as int, width: width as int, height: height as int }),
            forall|k: int| 0 <= k < j ==> !is_live(root, #[trigger] views(queue@)[k]),
        decreases queue@.len() - j,
    {
        if !is_outside(&queue[j], x, y, width, height) {
            assert(is_live(root, views(queue@)[j as int]));
            return true;
        }
        j = j + 1;
    }
    false
}

/// A traversal that has found `cap` leaves has found those that it is to
/// hand out, and leaves some out exactly when a region that is still in the
/// queue has a pixel in common with the root.
proof fn lemma_stop_at_cap(
    root: QuadView,
    config: QuadConfig,
    cap: nat,
    level: Seq<QuadView>,
    i: int,
    done: Seq<QuadView>,
    levels: nat,
    leaves: Seq<QuadView>,
    queue: Seq<QuadView>,
    found: bool,
)
    requires
        0 <= i <= level.len(),
        levels >= 1,
        forall|j: int| 0 <= j < level.len() ==> (#[trigger] level[j]).depth + levels > config.max_depth,
        queue == level.skip(i) + next_level(root.rect, level.take(i), config),
        leaves == done + level_leaves(root.rect, level.take(i), config),
        all_leaves(root, config) == done + level_order(root.rect, level, config, levels),
        leaves.len() == cap,
        found == exists|j: int| 0 <= j < queue.len() && is_live(root.rect, #[trigger] queue[j]),
    ensures
        leaves == decompose(root, config, cap),
        found == is_cut_short(root, config, cap),
{
    let all = all_leaves(root, config);
    let rest = level_order(
        root.rect,
        next_level(root.rect, level, config),
        config,
        (levels - 1) as nat,
    );
    lemma_leaves_left(root.rect, level, i, config, levels);
    if level.len() > 0 {
        assert(level =~= level.take(i) + level.skip(i));
        lemma_levels_concat(root.rect, level.take(i), level.skip(i), config);
        assert(all =~= leaves + (level_leaves(root.rect, level.skip(i), config) + rest));
    } else {
        assert(level.take(i) =~= level);
        assert(all =~= leaves);
    }
    assert(all.take(cap as int) =~= leaves);
}

/// Decomposes the image below `initial_quad` and returns the leaves in the
/// order in which they were found, at most `max_leaves` of them, and whether
/// that left any out. Once `max_leaves` leaves are found no region is
/// measured or split any more.
pub fn subdivide_nodes_capped(initial_quad: Quad, config: &QuadConfig, max_leaves: usize) -> (found:
    (Vec<Quad>, bool))
    requires
        initial_quad@.rect.edges_fit(),
    ensures
        views(found.0@) == decompose(initial_quad@, *config, max_leaves as nat),
        found.0.len() <= max_leaves,
        all_leaves_of(initial_quad@, views(found.0@), *config),
        found.1 == is_cut_short(initial_quad@, *config, max_leaves as nat),
{
    let ghost root = initial_quad@;
    let ghost bound = root.depth + levels_below(root, *config);
    let root_x = initial_quad.x();
    let root_y = initial_quad.y();
    let root_width = initial_quad.width();
    let root_height = initial_quad.height();
    let mut queue: VecDeque<Quad> = VecDeque::new();
    queue.push_back(initial_quad);
    let mut leaves: Vec<Quad> = Vec::new();
    let mut cut_short = false;
    let ghost mut level: Seq<QuadView> = seq![root];
    let ghost mut done: Seq<QuadView> = Seq::empty();
    let ghost mut i: int = 0;
    let ghost mut fuel: nat = levels_below(root, *config);
    proof {
        assert(level.take(0) =~= Seq::<QuadView>::empty());
        assert(level.skip(0) =~= level);
        assert(views(queue@) =~= level.skip(i) + next_level(root.rect, level.take(i), *config));
        assert(views(leaves@) =~= done + level_leaves(root.rect, level.take(i), *config));
        assert(done + level_order(root.rect, level, *config, fuel) =~= all_leaves(root, *config));
    }
    loop
        invariant_except_break
            !cut_short,
        invariant
            0 <= i <= level.len(),
            level.len() > 0,
            fuel >= 1,
            bound > config.max_depth,
            forall|j: int| 0 <= j < level.len() ==> (#[trigger] level[j]).depth + fuel >= bound,
            views(queue@) == level.skip(i) + next_level(root.rect, level.take(i), *config),
            views(leaves@) == done + level_leaves(root.rect, level.take(i), *config),
            all_leaves(root, *config) == done + level_order(root.rect, level, *config, fuel),
            leaves.len() <= max_leaves,
            root.rect.edges_fit(),
            all_placed(root, level, *config),
            root.rect == (Rect {
                x: root_x as int,
                y: root_y as int,
                width: root_width as int,
                height: root_height as int,
            }),
        ensures
            views(leaves@) == decompose(root, *config, max_leaves as nat),
            leaves.len() <= max_leaves,
            cut_short == is_cut_short(root, *config, max_leaves as nat),
        decreases fuel, level.len() - i,
    {
        if leaves.len() >= max_leaves {
            cut_short = any_live(&queue, root_x, root_y, root_width, root_height);
            proof {
                lemma_stop_at_cap(
                    root,
                    *config,
                    max_leaves as nat,
                    level,
                    i,
                    done,
                    fuel,
                    views(leaves@),
                    views(queue@),
                    cut_short,
                );
            }
            break ;
        }
        let next = queue.pop_front();
        match next {
            None => {
                proof {
                    assert(views(queue@).len() == 0);
                    assert(level.skip(i).len() == 0);
                    assert(level.take(i) =~= level);
                    assert(next_level(root.rect, level, *config).len() == 0);
                    assert(level_order(
                        root.rect,
                        next_level(root.rect, level, *config),
                        *config,
                        (fuel - 1) as nat,
                    ) =~= Seq::<QuadView>::empty());
                    assert(all_leaves(root, *config) =~= views(leaves@));
                }
                break ;
            },
            Some(quad) => {
                let mut quad = quad;
                let ghost queue_before = level.skip(i) + next_level(
                    root.rect,
                    level.take(i),
                    *config,
                );
                proof {
                    assert(quad@ == queue_before[0]);
                    assert(views(queue@) =~= queue_before.skip(1));
                    if i == level.len() {
                        assert(level.take(i) =~= level);
                        assert(level.skip(i) =~= Seq::<QuadView>::empty());
                        let below = next_level(root.rect, level, *config);
                        assert(queue_before =~= below);
                        lemma_next_level_deeper(root.rect, level, *config, bound - fuel);
                        lemma_level_keeps_place(root, level, *config);
                        done = done + level_leaves(root.rect, level, *config);
                        level = below;
                        fuel = (fuel - 1) as nat;
                        i = 0;
                        assert(level.take(0) =~= Seq::<QuadView>::empty());
                        assert(level.skip(0) =~= level);
                        assert(views(leaves@) =~= done + level_leaves(
                            root.rect,
                            level.take(0),
                            *config,
                        ));
                        assert(all_leaves(root, *config) =~= done + level_order(
                            root.rect,
                            level,
                            *config,
                            fuel,
                        ));
                    }
                    assert(quad@ == level[i]);
                    assert(views(queue@) =~= level.skip(i + 1) + next_level(
                        root.rect,
                        level.take(i),
                        *config,
                    ));
                    assert(level.take(i + 1) =~= level.take(i).push(level[i]));
                    lemma_next_level_push(root.rect, level.take(i), level[i], *config);
                }
                if is_outside(&quad, root_x, root_y, root_width, root_height) {
                    proof {
                        assert(offspring(root.rect, level[i], *config) =~= Seq::<QuadView>::empty());
                        assert(yield_of(root.rect, level[i], *config) =~= Seq::<QuadView>::empty());
                    }
                } else if should_subdivide(&quad, config) {
                    let ghost before = views(queue@);
                    let first = quad.child(0);
                    let second = quad.child(1);
                    let third = quad.child(2);
                    let fourth = quad.child(3);
                    queue.push_back(first);
                    queue.push_back(second);
                    queue.push_back(third);
                    queue.push_back(fourth);
                    proof {
                        assert(views(queue@) =~= before + offspring(
                            root.rect,
                            level[i],
                            *config,
                        ));
                        assert(yield_of(root.rect, level[i], *config) =~= Seq::<QuadView>::empty());
                    }
                } else {
                    let ghost before = views(leaves@);
                    let color = quad.calc_avg_color();
                    quad.paint(color);
                    leaves.push(quad);
                    proof {
                        assert(views(leaves@) =~= before + yield_of(root.rect, level[i], *config));
                        assert(offspring(root.rect, level[i], *config) =~= Seq::<QuadView>::empty());
                    }
                }
                proof {
                    i = i + 1;
                    assert(views(queue@) =~= level.skip(i) + next_level(
                        root.rect,
                        level.take(i),
                        *config,
                    ));
                    assert(views(leaves@) =~= done + level_leaves(
                        root.rect,
                        level.take(i),
                        *config,
                    ));
                }
            },
        }
    }
    proof {
        assert(root.rect.width == root_width && root.rect.height == root_height);
        lemma_leaves_are_terminal(root, *config, max_leaves as nat);
    }
    (leaves, cut_short)
}

/// Decomposes the image below `initial_quad` and returns the leaves in the
/// order in which they were found, at most `MAX_QUADS` of them. Whether that
/// left any out is what `subdivide_nodes_capped` tells.
pub fn subdivide_nodes(initial_quad: Quad, config: &QuadConfig) -> (leaves: Vec<Quad>)
    requires
        initial_quad@.rect.edges_fit(),
    ensures
        views(leaves@) == decompose(initial_quad@, *config, MAX_QUADS as nat),
        leaves.len() <= MAX_QUADS,
        all_leaves_of(initial_quad@, views(leaves@), *config),
{
    subdivide_nodes_capped(initial_quad, config, MAX_QUADS).0
}

} // verus!
