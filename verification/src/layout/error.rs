//! The layout error type: the one failure is a glyph run shaped with a font that is not
//! bundled, which cannot be rasterised later and so is reported rather than dropped.
use vstd::prelude::*;

use crate::strutil::push_str;

verus! {

/// Errors produced by layout.
#[derive(Debug, Clone)]
pub enum LayoutError {
    /// Text was shaped with a font that is not one of the bundled faces.
    FontNotBundled {
        /// The requested `font-family` list, joined with `", "`.
        family: String,
    },
}

impl LayoutError {
    /// A human-readable description of the failure.
    pub fn message(&self) -> (r: String)
        ensures
            r@ == "text was shaped with a font that is not bundled: "@ + self->family@,
    {
        let mut s = "text was shaped with a font that is not bundled: ".to_owned();
        match self {
            LayoutError::FontNotBundled { family } => push_str(&mut s, family.as_str()),
        }
        s
    }
}

} // verus!
