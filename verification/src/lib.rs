//! In-memory raster images: a pixel buffer, filled-shape rasterization,
//! a 2x2 coordinate remap, and a binary pixel-map file codec, each with a
//! verified contract.

pub mod codec;
pub mod image;
pub mod raster;
pub mod remap;
