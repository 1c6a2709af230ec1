//! Shaped text: positioned glyphs and the runs they come in.
use vstd::prelude::*;

use crate::fonts::db::FontKey;
use crate::layout::au::Au;
use crate::layout::geom::{Point, Rgba8};

verus! {

/// One positioned glyph.
#[derive(Debug, Clone, Copy, PartialEq, Eq, Structural)]
pub struct Glyph {
    /// The glyph id within its face.
    pub id: u16,
    /// Horizontal offset from the run's origin.
    pub x: Au,
    /// Vertical offset from the run's origin.
    pub y: Au,
    /// The glyph's advance.
    pub advance: Au,
}

/// A run of glyphs in one face, size and colour.
#[derive(Debug, Clone)]
pub struct GlyphRun {
    /// The face the glyphs are from.
    pub font: FontKey,
    /// The font size.
    pub size: Au,
    /// The run's origin: the pen position of its first glyph, on the baseline.
    pub origin: Point,
    /// The glyphs, in order.
    pub glyphs: Vec<Glyph>,
    /// The text colour.
    pub color: Rgba8,
}

} // verus!
