//! A generative engine for layered collectible images.
//!
//! A catalog holds named groups of layer options. One option is drawn per
//! group by weighted sampling, and the drawn images are stacked bottom to top
//! with "over" blending into a single raster.

pub mod pixel;
pub mod raster;
pub mod codec;
pub mod layer;
pub mod selector;
pub mod ordering;
pub mod compositor;
pub mod generator;
pub mod loader;
pub mod trigger;
