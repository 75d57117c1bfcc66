//! A small software rasterizer: paths of straight edges filled scanline by
//! scanline, with horizontal edge antialiasing and source-over compositing.
//!
//! Coordinates are fixed-point, in units of `1 / SUBPIXELS` of a pixel.
pub mod color;
pub mod geometry;
pub mod path;
pub mod raster;
pub mod surface;

pub use color::{blend, Color};
pub use geometry::SUBPIXELS;
pub use raster::Cloth;
pub use surface::{Canvas, Target};
