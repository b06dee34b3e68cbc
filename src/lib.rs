//! Photomosaic construction: tile keys, nearest-color matching,
//! error-diffusion dithering and tile compositing.

pub mod color;
pub mod dither;
pub mod error;
pub mod paths;
pub mod raster;
pub mod tiles;
pub mod mosaic;
