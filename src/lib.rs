//! Arc-length resampling of flattened paths and the ordering of the
//! rotating vectors that redraw them.
pub mod geometry;
pub mod path;
pub mod sampler;
pub mod spectrum;
pub mod visualizer;
