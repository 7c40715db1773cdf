//! Quadtree art: an image is cut into rectangles that are split in four while
//! their colours vary, and each rectangle that is left is painted in its
//! average colour.

pub mod color;
pub mod config;
pub mod driver;
pub mod geometry;
pub mod laws;
pub mod paint;
pub mod pixels;
pub mod policy;
pub mod quad;
pub mod stats;

pub use crate::color::Color;
pub use crate::config::QuadConfig;
pub use crate::driver::subdivide_nodes;
pub use crate::driver::subdivide_nodes_capped;
pub use crate::paint::fill_quad_with_color;
pub use crate::quad::Quad;
