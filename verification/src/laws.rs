//! What holds of every decomposition.

use crate::config::QuadConfig;
use crate::driver::all_leaves;
use crate::driver::decompose;
use crate::driver::is_live;
use crate::driver::lemma_next_level_deeper;
use crate::driver::level_leaves;
use crate::driver::level_order;
use crate::driver::levels_below;
use crate::driver::next_level;
use crate::driver::offspring;
use crate::driver::resolved;
use crate::driver::yield_of;
use crate::geometry::lemma_children_tile;
use crate::geometry::lemma_overlap_passes_to_child;
use crate::geometry::Rect;
use crate::policy::lemma_lower_threshold_splits_more;
use crate::policy::wants_split;
use crate::quad::QuadView;
use crate::stats::average_color;
use vstd::prelude::*;

verus! {

/// Whether `v` can stand in the tree of `root`: it reads the same image,
/// carries the same settings, lies inside the root's rectangle, is at least
/// as deep as the root and, if the root is not deeper than the maximal
/// depth, is not deeper than that either.
pub open spec fn placed(root: QuadView, v: QuadView, config: QuadConfig) -> bool {
    &&& v.grid == root.grid
    &&& v.config == root.config
    &&& root.depth <= v.depth
    &&& (root.depth <= config.max_depth ==> v.depth <= config.max_depth)
    &&& root.rect.encloses(v.rect)
    &&& v.rect.width >= 0
    &&& v.rect.height >= 0
}

/// Whether `leaf` can be a leaf of the tree of `root`: it can stand in the
/// tree, holds at least one pixel, has its average colour, and is not to be
/// split.
pub open spec fn is_leaf_of(root: QuadView, leaf: QuadView, config: QuadConfig) -> bool {
    &&& placed(root, leaf, config)
    &&& !leaf.rect.is_empty()
    &&& leaf.color == average_color(leaf.grid, leaf.rect)
    &&& !wants_split(leaf, config)
}

/// Whether every region of `level` can stand in the tree of `root`.
pub open spec fn all_placed(root: QuadView, level: Seq<QuadView>, config: QuadConfig) -> bool {
    forall|j: int| 0 <= j < level.len() ==> placed(root, #[trigger] level[j], config)
}

/// Whether every region of `leaves` can be a leaf of the tree of `root`.
pub open spec fn all_leaves_of(root: QuadView, leaves: Seq<QuadView>, config: QuadConfig) -> bool {
    forall|j: int| 0 <= j < leaves.len() ==> is_leaf_of(root, #[trigger] leaves[j], config)
}

/// The number of leaves in the tree of `levels` levels below `v`.
pub open spec fn leaf_count(root: Rect, v: QuadView, config: QuadConfig, levels: nat) -> nat
    decreases levels,
{
    if levels == 0 || !is_live(root, v) {
        0
    } else if !wants_split(v, config) {
        1
    } else {
        leaf_count(root, v.child(0), config, (levels - 1) as nat) + leaf_count(
            root,
            v.child(1),
            config,
            (levels - 1) as nat,
        ) + leaf_count(root, v.child(2), config, (levels - 1) as nat) + leaf_count(
            root,
            v.child(3),
            config,
            (levels - 1) as nat,
        )
    }
}

/// The number of leaves in the trees of `levels` levels below the regions of
/// `level`.
pub open spec fn total_count(root: Rect, level: Seq<QuadView>, config: QuadConfig, levels: nat) -> nat
    decreases level.len(),
{
    if level.len() == 0 {
        0
    } else {
        total_count(root, level.drop_last(), config, levels) + leaf_count(
            root,
            level.last(),
            config,
            levels,
        )
    }
}

proof fn lemma_step_keeps_place(root: QuadView, v: QuadView, config: QuadConfig)
    requires
        placed(root, v, config),
    ensures
        all_placed(root, offspring(root.rect, v, config), config),
        all_leaves_of(root, yield_of(root.rect, v, config), config),
{
    lemma_children_tile(v.rect);
    let kids = offspring(root.rect, v, config);
    assert forall|j: int| 0 <= j < kids.len() implies placed(root, #[trigger] kids[j], config) by {
        assert(kids[j] == v.child(j));
        assert(v.rect.encloses(v.rect.child(j)));
        assert(v.rect.child(j).width >= 0 && v.rect.child(j).height >= 0);
    }
    let out = yield_of(root.rect, v, config);
    assert forall|j: int| 0 <= j < out.len() implies is_leaf_of(root, #[trigger] out[j], config) by {
        assert(out[j] == resolved(v));
    }
}

/// The children and the leaves of regions that can stand in a tree can stand
/// in it, the leaves as leaves.
pub proof fn lemma_level_keeps_place(root: QuadView, level: Seq<QuadView>, config: QuadConfig)
    requires
        all_placed(root, level, config),
    ensures
        all_placed(root, next_level(root.rect, level, config), config),
        all_leaves_of(root, level_leaves(root.rect, level, config), config),
    decreases level.len(),
{
    if level.len() > 0 {
        let rest = level.drop_last();
        let v = level.last();
        assert forall|j: int| 0 <= j < rest.len() implies placed(root, #[trigger] rest[j], config) by {
            assert(rest[j] == level[j]);
        }
        assert(v == level[level.len() - 1]);
        lemma_level_keeps_place(root, rest, config);
        lemma_step_keeps_place(root, v, config);
        let a = next_level(root.rect, rest, config);
        let b = offspring(root.rect, v, config);
        assert forall|j: int| 0 <= j < (a + b).len() implies placed(
            root,
            #[trigger] (a + b)[j],
            config,
        ) by {
            if j < a.len() {
                assert((a + b)[j] == a[j]);
            } else {
                assert((a + b)[j] == b[j - a.len()]);
            }
        }
        let c = level_leaves(root.rect, rest, config);
        let d = yield_of(root.rect, v, config);
        assert forall|j: int| 0 <= j < (c + d).len() implies is_leaf_of(
            root,
            #[trigger] (c + d)[j],
            config,
        ) by {
            if j < c.len() {
                assert((c + d)[j] == c[j]);
            } else {
                assert((c + d)[j] == d[j - c.len()]);
            }
        }
    }
}

proof fn lemma_level_order_leaves(
    root: QuadView,
    level: Seq<QuadView>,
    config: QuadConfig,
    levels: nat,
)
    requires
        all_placed(root, level, config),
    ensures
        all_leaves_of(root, level_order(root.rect, level, config, levels), config),
    decreases levels,
{
    if levels > 0 && level.len() > 0 {
        lemma_level_keeps_place(root, level, config);
        let below = next_level(root.rect, level, config);
        lemma_level_order_leaves(root, below, config, (levels - 1) as nat);
        let a = level_leaves(root.rect, level, config);
        let b = level_order(root.rect, below, config, (levels - 1) as nat);
        assert forall|j: int| 0 <= j < (a + b).len() implies is_leaf_of(
            root,
            #[trigger] (a + b)[j],
            config,
        ) by {
            if j < a.len() {
                assert((a + b)[j] == a[j]);
            } else {
                assert((a + b)[j] == b[j - a.len()]);
            }
        }
    }
}

/// Every leaf of a decomposition reads the root's image and carries its
/// settings, lies inside the root's rectangle and holds a pixel, has its
/// average colour, and is not to be split: no leaf has a non-uniformity above
/// the threshold unless it is at the maximal depth or not above the size
/// threshold. No leaf is above the root, and if the root is not deeper than
/// the maximal depth, no leaf is.
pub proof fn lemma_leaves_are_terminal(root: QuadView, config: QuadConfig, cap: nat)
    requires
        root.rect.width >= 0,
        root.rect.height >= 0,
    ensures
        all_leaves_of(root, decompose(root, config, cap), config),
{
    let level = seq![root];
    assert(all_placed(root, level, config));
    lemma_level_order_leaves(root, level, config, levels_below(root, config));
    let all = all_leaves(root, config);
    let got = decompose(root, config, cap);
    assert forall|j: int| 0 <= j < got.len() implies is_leaf_of(root, #[trigger] got[j], config) by {
        assert(got[j] == all[j]);
    }
}

/// A child is one level deeper than its parent, and no leaf of a
/// decomposition is above the root or, if the root is not deeper than the
/// maximal depth, deeper than that.
pub proof fn lemma_depths(root: QuadView, config: QuadConfig, cap: nat, j: int, k: int)
    requires
        root.rect.width >= 0,
        root.rect.height >= 0,
        0 <= j < decompose(root, config, cap).len(),
    ensures
        root.child(k).depth == root.depth + 1,
        root.depth <= decompose(root, config, cap)[j].depth,
        root.depth <= config.max_depth ==> decompose(root, config, cap)[j].depth
            <= config.max_depth,
{
    lemma_leaves_are_terminal(root, config, cap);
    assert(is_leaf_of(root, decompose(root, config, cap)[j], config));
}

/// A decomposition that stops at `cap` leaves has at most `cap` leaves, and
/// all leaves of the tree if those are at most `cap`.
pub proof fn lemma_cap_holds(root: QuadView, config: QuadConfig, cap: nat)
    ensures
        decompose(root, config, cap).len() <= cap,
        decompose(root, config, cap).len() <= all_leaves(root, config).len(),
        decompose(root, config, cap).len() == cap || decompose(root, config, cap) == all_leaves(
            root,
            config,
        ),
{
}

/// The number of regions of `regions` that contain the pixel `(px, py)`.
pub open spec fn holders(regions: Seq<QuadView>, px: int, py: int) -> nat
    decreases regions.len(),
{
    if regions.len() == 0 {
        0
    } else {
        holders(regions.drop_last(), px, py) + (if regions.last().rect.contains(px, py) {
            1nat
        } else {
            0nat
        })
    }
}

proof fn lemma_holders_concat(a: Seq<QuadView>, b: Seq<QuadView>, px: int, py: int)
    ensures
        holders(a + b, px, py) == holders(a, px, py) + holders(b, px, py),
    decreases b.len(),
{
    if b.len() == 0 {
        assert(a + b =~= a);
    } else {
        assert((a + b).drop_last() =~= a + b.drop_last());
        assert((a + b).last() == b.last());
        lemma_holders_concat(a, b.drop_last(), px, py);
    }
}

proof fn lemma_no_holder_outside(root: QuadView, regions: Seq<QuadView>, config: QuadConfig, px: int, py: int)
    requires
        all_placed(root, regions, config),
        !root.rect.contains(px, py),
    ensures
        holders(regions, px, py) == 0,
    decreases regions.len(),
{
    if regions.len() > 0 {
        let rest = regions.drop_last();
        assert forall|j: int| 0 <= j < rest.len() implies placed(root, #[trigger] rest[j], config) by {
            assert(rest[j] == regions[j]);
        }
        assert(placed(root, regions[regions.len() - 1], config));
        lemma_no_holder_outside(root, rest, config, px, py);
    }
}

proof fn lemma_step_holders(root: QuadView, v: QuadView, config: QuadConfig, px: int, py: int)
    requires
        placed(root, v, config),
        root.rect.contains(px, py),
    ensures
        holders(yield_of(root.rect, v, config), px, py) + holders(
            offspring(root.rect, v, config),
            px,
            py,
        ) == (if v.rect.contains(px, py) {
            1nat
        } else {
            0nat
        }),
{
    lemma_children_tile(v.rect);
    let out = yield_of(root.rect, v, config);
    let kids = offspring(root.rect, v, config);
    assert(v.rect.children_containing(px, py) == (if v.rect.contains(px, py) {
        1int
    } else {
        0int
    }));
    if out.len() > 0 {
        assert(out.drop_last().len() == 0);
        assert(out.last() == resolved(v));
        assert(holders(out.drop_last(), px, py) == 0);
    }
    if kids.len() > 0 {
        let k3 = kids.drop_last();
        let k2 = k3.drop_last();
        let k1 = k2.drop_last();
        let k0 = k1.drop_last();
        assert(k0.len() == 0);
        assert(kids.last() == v.child(3));
        assert(k3.last() == v.child(2));
        assert(k2.last() == v.child(1));
        assert(k1.last() == v.child(0));
        assert(holders(k0, px, py) == 0);
        assert(holders(k1, px, py) == holders(k0, px, py) + (if v.rect.child(0).contains(px, py) {
            1nat
        } else {
            0nat
        }));
        assert(holders(k2, px, py) == holders(k1, px, py) + (if v.rect.child(1).contains(px, py) {
            1nat
        } else {
            0nat
        }));
        assert(holders(k3, px, py) == holders(k2, px, py) + (if v.rect.child(2).contains(px, py) {
            1nat
        } else {
            0nat
        }));
        assert(holders(kids, px, py) == holders(k3, px, py) + (if v.rect.child(3).contains(px, py) {
            1nat
        } else {
            0nat
        }));
    }
}

proof fn lemma_level_holders(root: QuadView, level: Seq<QuadView>, config: QuadConfig, px: int, py: int)
    requires
        all_placed(root, level, config),
        root.rect.contains(px, py),
    ensures
        holders(level_leaves(root.rect, level, config), px, py) + holders(
            next_level(root.rect, level, config),
            px,
            py,
        ) == holders(level, px, py),
    decreases level.len(),
{
    if level.len() > 0 {
        let rest = level.drop_last();
        let v = level.last();
        assert forall|j: int| 0 <= j < rest.len() implies placed(root, #[trigger] rest[j], config) by {
            assert(rest[j] == level[j]);
        }
        assert(placed(root, level[level.len() - 1], config));
        lemma_level_holders(root, rest, config, px, py);
        lemma_step_holders(root, v, config, px, py);
        lemma_holders_concat(
            level_leaves(root.rect, rest, config),
            yield_of(root.rect, v, config),
            px,
            py,
        );
        lemma_holders_concat(
            next_level(root.rect, rest, config),
            offspring(root.rect, v, config),
            px,
            py,
        );
    }
}

proof fn lemma_level_order_holders(
    root: QuadView,
    level: Seq<QuadView>,
    config: QuadConfig,
    levels: nat,
    px: int,
    py: int,
)
    requires
        all_placed(root, level, config),
        root.rect.contains(px, py),
        levels >= 1,
        forall|j: int| 0 <= j < level.len() ==> (#[trigger] level[j]).depth + levels > config.max_depth,
    ensures
        holders(level_order(root.rect, level, config, levels), px, py) == holders(level, px, py),
    decreases levels,
{
    if level.len() > 0 {
        let below = next_level(root.rect, level, config);
        let here = level_leaves(root.rect, level, config);
        let fewer = (levels - 1) as nat;
        lemma_next_level_deeper(root.rect, level, config, config.max_depth + 1 - levels);
        lemma_level_keeps_place(root, level, config);
        lemma_level_holders(root, level, config, px, py);
        lemma_holders_concat(here, level_order(root.rect, below, config, fewer), px, py);
        if levels == 1 {
            assert(below.len() == 0);
            assert(level_order(root.rect, below, config, fewer).len() == 0);
        } else {
            assert forall|j: int| 0 <= j < below.len() implies (#[trigger] below[j]).depth + fewer
                > config.max_depth by {}
            lemma_level_order_holders(root, below, config, fewer, px, py);
        }
    }
}

/// The leaves of a tree tile its root: each pixel of the root lies in exactly
/// one of them, and no leaf holds any other pixel.
pub proof fn lemma_leaves_tile_root(root: QuadView, config: QuadConfig, px: int, py: int)
    requires
        root.rect.width >= 0,
        root.rect.height >= 0,
    ensures
        holders(all_leaves(root, config), px, py) == (if root.rect.contains(px, py) {
            1nat
        } else {
            0nat
        }),
{
    let level = seq![root];
    assert(all_placed(root, level, config));
    if root.rect.contains(px, py) {
        lemma_level_order_holders(root, level, config, levels_below(root, config), px, py);
        assert(level.drop_last().len() == 0);
        assert(level.last() == root);
        assert(holders(level.drop_last(), px, py) == 0);
    } else {
        lemma_level_order_leaves(root, level, config, levels_below(root, config));
        let all = all_leaves(root, config);
        assert forall|j: int| 0 <= j < all.len() implies placed(root, #[trigger] all[j], config) by {
            assert(is_leaf_of(root, all[j], config));
        }
        lemma_no_holder_outside(root, all, config, px, py);
    }
}

proof fn lemma_levels_suffice(
    root: Rect,
    level: Seq<QuadView>,
    config: QuadConfig,
    levels: nat,
    extra: nat,
)
    requires
        levels >= 1,
        forall|j: int| 0 <= j < level.len() ==> (#[trigger] level[j]).depth + levels > config.max_depth,
    ensures
        level_order(root, level, config, levels + extra) == level_order(root, level, config, levels),
    decreases levels,
{
    if level.len() > 0 {
        let below = next_level(root, level, config);
        let here = level_leaves(root, level, config);
        let more = (levels + extra - 1) as nat;
        let fewer = (levels - 1) as nat;
        lemma_next_level_deeper(root, level, config, config.max_depth + 1 - levels);
        assert(level_order(root, level, config, levels + extra) == here + level_order(
            root,
            below,
            config,
            more,
        ));
        assert(level_order(root, level, config, levels) == here + level_order(
            root,
            below,
            config,
            fewer,
        ));
        if levels == 1 {
            assert(below.len() == 0);
            assert(level_order(root, below, config, more) == Seq::<QuadView>::empty());
            assert(level_order(root, below, config, fewer) == Seq::<QuadView>::empty());
        } else {
            assert forall|j: int| 0 <= j < below.len() implies (#[trigger] below[j]).depth + fewer
                > config.max_depth by {}
            lemma_levels_suffice(root, below, config, fewer, extra);
            assert(more == fewer + extra);
        }
    }
}

/// The tree of a root has no level beyond those that `all_leaves` walks: to
/// walk more levels hands out the same leaves.
pub proof fn lemma_no_deeper_levels(root: QuadView, config: QuadConfig, extra: nat)
    ensures
        level_order(root.rect, seq![root], config, levels_below(root, config) + extra)
            == all_leaves(root, config),
{
    lemma_levels_suffice(root.rect, seq![root], config, levels_below(root, config), extra);
}

proof fn lemma_total_count_concat(
    root: Rect,
    a: Seq<QuadView>,
    b: Seq<QuadView>,
    config: QuadConfig,
    levels: nat,
)
    ensures
        total_count(root, a + b, config, levels) == total_count(root, a, config, levels)
            + total_count(root, b, config, levels),
    decreases b.len(),
{
    if b.len() == 0 {
        assert(a + b =~= a);
    } else {
        assert((a + b).drop_last() =~= a + b.drop_last());
        assert((a + b).last() == b.last());
        lemma_total_count_concat(root, a, b.drop_last(), config, levels);
    }
}

proof fn lemma_total_count_of_offspring(root: Rect, v: QuadView, config: QuadConfig, levels: nat)
    requires
        levels >= 1,
    ensures
        yield_of(root, v, config).len() + total_count(
            root,
            offspring(root, v, config),
            config,
            (levels - 1) as nat,
        ) == leaf_count(root, v, config, levels),
{
    let below = (levels - 1) as nat;
    let kids = offspring(root, v, config);
    if is_live(root, v) && wants_split(v, config) {
        let k3 = kids.drop_last();
        let k2 = k3.drop_last();
        let k1 = k2.drop_last();
        let k0 = k1.drop_last();
        assert(k0.len() == 0);
        assert(kids.last() == v.child(3));
        assert(k3.last() == v.child(2));
        assert(k2.last() == v.child(1));
        assert(k1.last() == v.child(0));
        assert(total_count(root, k0, config, below) == 0);
        assert(total_count(root, k1, config, below) == leaf_count(root, v.child(0), config, below));
        assert(total_count(root, k2, config, below) == total_count(root, k1, config, below)
            + leaf_count(root, v.child(1), config, below));
        assert(total_count(root, k3, config, below) == total_count(root, k2, config, below)
            + leaf_count(root, v.child(2), config, below));
        assert(total_count(root, kids, config, below) == total_count(root, k3, config, below)
            + leaf_count(root, v.child(3), config, below));
    } else {
        assert(kids.len() == 0);
        assert(total_count(root, kids, config, below) == 0);
    }
}

proof fn lemma_level_count(root: Rect, level: Seq<QuadView>, config: QuadConfig, levels: nat)
    requires
        levels >= 1,
    ensures
        level_leaves(root, level, config).len() + total_count(
            root,
            next_level(root, level, config),
            config,
            (levels - 1) as nat,
        ) == total_count(root, level, config, levels),
    decreases level.len(),
{
    if level.len() > 0 {
        let rest = level.drop_last();
        let v = level.last();
        lemma_level_count(root, rest, config, levels);
        lemma_total_count_of_offspring(root, v, config, levels);
        lemma_total_count_concat(
            root,
            next_level(root, rest, config),
            offspring(root, v, config),
            config,
            (levels - 1) as nat,
        );
    }
}

proof fn lemma_total_count_without_levels(root: Rect, level: Seq<QuadView>, config: QuadConfig)
    ensures
        total_count(root, level, config, 0) == 0,
    decreases level.len(),
{
    if level.len() > 0 {
        lemma_total_count_without_levels(root, level.drop_last(), config);
    }
}

/// The leaves handed out level by level are as many as the trees below the
/// regions of the first level have.
pub proof fn lemma_level_order_count(
    root: Rect,
    level: Seq<QuadView>,
    config: QuadConfig,
    levels: nat,
)
    ensures
        level_order(root, level, config, levels).len() == total_count(root, level, config, levels),
    decreases levels,
{
    if levels == 0 {
        lemma_total_count_without_levels(root, level, config);
    } else if level.len() == 0 {
    } else {
        lemma_level_order_count(root, next_level(root, level, config), config, (levels - 1) as nat);
        lemma_level_count(root, level, config, levels);
    }
}

proof fn lemma_live_region_has_leaf(root: Rect, v: QuadView, config: QuadConfig, levels: nat)
    requires
        is_live(root, v),
        levels >= 1,
        v.depth + levels > config.max_depth,
    ensures
        leaf_count(root, v, config, levels) >= 1,
    decreases levels,
{
    if wants_split(v, config) {
        let k = lemma_overlap_passes_to_child(v.rect, root);
        assert(is_live(root, v.child(k)));
        lemma_live_region_has_leaf(root, v.child(k), config, (levels - 1) as nat);
    }
}

proof fn lemma_count_grows(
    root: Rect,
    v: QuadView,
    low: QuadConfig,
    high: QuadConfig,
    levels: nat,
)
    requires
        low.max_depth == high.max_depth,
        low.size_threshold == high.size_threshold,
        low.color_threshold <= high.color_threshold,
        v.depth + levels > low.max_depth,
    ensures
        leaf_count(root, v, high, levels) <= leaf_count(root, v, low, levels),
    decreases levels,
{
    if levels == 0 || !is_live(root, v) {
    } else if wants_split(v, high) {
        lemma_lower_threshold_splits_more(v, low, high);
        let below = (levels - 1) as nat;
        lemma_count_grows(root, v.child(0), low, high, below);
        lemma_count_grows(root, v.child(1), low, high, below);
        lemma_count_grows(root, v.child(2), low, high, below);
        lemma_count_grows(root, v.child(3), low, high, below);
    } else {
        lemma_live_region_has_leaf(root, v, low, levels);
    }
}

proof fn lemma_total_count_positive(root: Rect, regions: Seq<QuadView>, config: QuadConfig, levels: nat)
    requires
        levels >= 1 || regions.len() == 0,
        forall|j: int|
            0 <= j < regions.len() ==> (#[trigger] regions[j]).depth + levels > config.max_depth,
    ensures
        total_count(root, regions, config, levels) > 0 <==> exists|j: int|
            0 <= j < regions.len() && is_live(root, #[trigger] regions[j]),
    decreases regions.len(),
{
    if regions.len() > 0 {
        let rest = regions.drop_last();
        let v = regions.last();
        assert(v == regions[regions.len() - 1]);
        assert forall|j: int| 0 <= j < rest.len() implies (#[trigger] rest[j]).depth + levels
            > config.max_depth by {
            assert(rest[j] == regions[j]);
        }
        lemma_total_count_positive(root, rest, config, levels);
        if is_live(root, v) {
            lemma_live_region_has_leaf(root, v, config, levels);
        }
        if total_count(root, regions, config, levels) > 0 {
            if is_live(root, v) {
                assert(is_live(root, regions[regions.len() - 1]));
            } else {
                let j = choose|j: int| 0 <= j < rest.len() && is_live(root, #[trigger] rest[j]);
                assert(rest[j] == regions[j]);
                assert(is_live(root, regions[j]));
            }
        }
        if exists|j: int| 0 <= j < regions.len() && is_live(root, #[trigger] regions[j]) {
            let j = choose|j: int| 0 <= j < regions.len() && is_live(root, #[trigger] regions[j]);
            if j < rest.len() {
                assert(rest[j] == regions[j]);
                assert(is_live(root, rest[j]));
            }
        }
    }
}

/// While a level is walked, with its first `i` regions done, leaves are left
/// to come exactly when a region in the queue has a pixel in common with the
/// root: the queue holds the rest of the level and the children of the
/// regions done.
pub proof fn lemma_leaves_left(
    root: Rect,
    level: Seq<QuadView>,
    i: int,
    config: QuadConfig,
    levels: nat,
)
    requires
        0 <= i <= level.len(),
        levels >= 1,
        forall|j: int| 0 <= j < level.len() ==> (#[trigger] level[j]).depth + levels > config.max_depth,
    ensures
        ({
            let queue = level.skip(i) + next_level(root, level.take(i), config);
            level_order(root, level, config, levels).len() > level_leaves(
                root,
                level.take(i),
                config,
            ).len() <==> exists|j: int| 0 <= j < queue.len() && is_live(root, #[trigger] queue[j])
        }),
{
    let a = level.take(i);
    let b = level.skip(i);
    let na = next_level(root, a, config);
    let queue = b + na;
    let below = (levels - 1) as nat;
    lemma_level_order_count(root, level, config, levels);
    assert(level =~= a + b);
    lemma_total_count_concat(root, a, b, config, levels);
    lemma_level_count(root, a, config, levels);
    assert forall|j: int| 0 <= j < a.len() implies (#[trigger] a[j]).depth >= config.max_depth + 1
        - levels by {
        assert(a[j] == level[j]);
    }
    lemma_next_level_deeper(root, a, config, config.max_depth + 1 - levels);
    assert forall|j: int| 0 <= j < b.len() implies (#[trigger] b[j]).depth + levels
        > config.max_depth by {
        assert(b[j] == level[i + j]);
    }
    lemma_total_count_positive(root, b, config, levels);
    lemma_total_count_positive(root, na, config, below);
    let left = total_count(root, na, config, below) + total_count(root, b, config, levels);
    assert(level_order(root, level, config, levels).len() == level_leaves(root, a, config).len()
        + left);
    if left > 0 {
        if total_count(root, b, config, levels) > 0 {
            let j = choose|j: int| 0 <= j < b.len() && is_live(root, #[trigger] b[j]);
            assert(queue[j] == b[j]);
            assert(is_live(root, queue[j]));
        } else {
            let j = choose|j: int| 0 <= j < na.len() && is_live(root, #[trigger] na[j]);
            assert(queue[b.len() + j] == na[j]);
            assert(is_live(root, queue[b.len() + j]));
        }
    }
    if exists|j: int| 0 <= j < queue.len() && is_live(root, #[trigger] queue[j]) {
        let j = choose|j: int| 0 <= j < queue.len() && is_live(root, #[trigger] queue[j]);
        if j < b.len() {
            assert(queue[j] == b[j]);
            assert(is_live(root, b[j]));
        } else {
            assert(queue[j] == na[j - b.len()]);
            assert(is_live(root, na[j - b.len()]));
        }
    }
}

/// With the same image, maximal depth and size threshold, a lower colour
/// threshold gives at least as many leaves as a higher one.
pub proof fn lemma_lower_threshold_gives_no_fewer_leaves(
    root: QuadView,
    low: QuadConfig,
    high: QuadConfig,
    cap: nat,
)
    requires
        low.max_depth == high.max_depth,
        low.size_threshold == high.size_threshold,
        low.color_threshold <= high.color_threshold,
    ensures
        all_leaves(root, high).len() <= all_leaves(root, low).len(),
        decompose(root, high, cap).len() <= decompose(root, low, cap).len(),
{
    let levels = levels_below(root, low);
    assert(levels == levels_below(root, high));
    let level = seq![root];
    lemma_level_order_count(root.rect, level, low, levels);
    lemma_level_order_count(root.rect, level, high, levels);
    assert(level.drop_last().len() == 0);
    assert(level.last() == root);
    assert(total_count(root.rect, level.drop_last(), low, levels) == 0);
    assert(total_count(root.rect, level.drop_last(), high, levels) == 0);
    assert(total_count(root.rect, level, low, levels) == leaf_count(root.rect, root, low, levels));
    assert(total_count(root.rect, level, high, levels) == leaf_count(
        root.rect,
        root,
        high,
        levels,
    ));
    lemma_count_grows(root.rect, root, low, high, levels);
}

} // verus!
