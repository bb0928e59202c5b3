//! Alpha bleeding for RGBA rasters.
//!
//! Texture atlases suffer fringe artifacts when a bilinear sampler reads the
//! (arbitrary) color channels of fully transparent pixels next to opaque
//! shapes. This crate extrapolates color outward from the opaque region into
//! the transparent border, ring by ring, up to a caller-chosen thickness,
//! while leaving every originally opaque pixel untouched and every
//! transparent pixel's alpha at zero.

pub mod bleed;
pub mod laws;
pub mod model;
pub mod raster;

pub use bleed::alpha_bleed;
pub use bleed::make_opaque;
pub use raster::Raster;
pub use raster::Rgba;
