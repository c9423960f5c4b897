//! Rasterization of georeferenced polygons into RGBA images.
//!
//! The library models coordinates in nano-degrees (signed 64-bit integers),
//! so that the window geometry, the scanline fill, the stroke pass and the
//! alpha compositor are exact integer computations with verified contracts.

pub mod cli;
pub mod color;
pub mod edge;
pub mod errors;
pub mod geojson;
pub mod geom;
pub mod gpkg;
pub mod logger;
pub mod math;
pub mod numtext;
pub mod par;
pub mod raster;
pub mod stroke;
pub mod text;

use vstd::prelude::*;

verus! {

/// Largest width or height, in pixels, that a renderer accepts.
pub const MAX_DIMENSION: u32 = 20000;

} // verus!
