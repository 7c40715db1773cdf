//! When a region is split.

use crate::config::QuadConfig;
use crate::quad::Quad;
use crate::quad::QuadView;
use crate::stats::non_uniformity;
use vstd::prelude::*;

verus! {

/// A region is split when it is above the maximal depth, its non-uniformity
/// is above the colour threshold, and its width and its height are both
/// above the size threshold.
pub open spec fn wants_split(v: QuadView, config: QuadConfig) -> bool {
    &&& v.depth < config.max_depth
    &&& non_uniformity(v.grid, v.rect) > config.color_threshold
    &&& v.rect.width > config.size_threshold
    &&& v.rect.height > config.size_threshold
}

/// Whether the region is to be split under the given settings.
pub fn should_subdivide(quad: &Quad, config: &QuadConfig) -> (split: bool)
    ensures
        split == wants_split(quad@, *config),
{
    quad.cur_depth() < config.max_depth && quad.width() > config.size_threshold && quad.height()
        > config.size_threshold && quad.calc_color_distance() > config.color_threshold
}

/// A lower colour threshold splits every region that a higher one splits.
pub proof fn lemma_lower_threshold_splits_more(v: QuadView, low: QuadConfig, high: QuadConfig)
    requires
        low.max_depth == high.max_depth,
        low.size_threshold == high.size_threshold,
        low.color_threshold <= high.color_threshold,
        wants_split(v, high),
    ensures
        wants_split(v, low),
{
}

} // verus!
