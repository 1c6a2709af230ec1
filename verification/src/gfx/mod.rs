//! The CPU raster backend's own logic: alpha arithmetic, glyph masks and their cache, and
//! the pixel geometry of clips, borders and glyph placement.

pub mod blend;
pub mod blit;
pub mod clip;
pub mod glyph_cache;
pub mod raster;
