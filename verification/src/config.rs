//! The settings of one decomposition run.

use vstd::prelude::*;

verus! {

/// One unit of colour distance is a thousandth of a channel step: a
/// distance of 10.0 is written 10 000.
pub const DISTANCE_SCALE: u32 = 1000;

/// The settings of one run. `color_threshold` is in thousandths of a channel
/// step, as all colour distances are.
#[derive(Debug)]
pub struct QuadConfig {
    pub max_depth: u32,
    pub color_threshold: u32,
    pub size_threshold: u32,
    pub output_file: String,
}

impl Default for QuadConfig {
    /// Depth 7, colour distance 10.0, side 5, written to `output.png`.
    fn default() -> (config: Self)
        ensures
            config.max_depth == 7,
            config.color_threshold == 10 * DISTANCE_SCALE,
            config.size_threshold == 5,
            config.output_file@ == "output.png"@,
    {
        QuadConfig {
            max_depth: 7,
            color_threshold: 10_000,
            size_threshold: 5,
            output_file: "output.png".to_owned(),
        }
    }
}

impl Clone for QuadConfig {
    fn clone(&self) -> (copy: Self)
        ensures
            copy == *self,
    {
        QuadConfig {
            max_depth: self.max_depth,
            color_threshold: self.color_threshold,
            size_threshold: self.size_threshold,
            output_file: self.output_file.clone(),
        }
    }
}

} // verus!
