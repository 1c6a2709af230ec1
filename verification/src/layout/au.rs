//! [`Au`]: the app unit, 1/60 of a CSS pixel, the integer unit all layout arithmetic uses.
use vstd::prelude::*;

verus! {

/// One-sixtieth of a CSS pixel, stored as a signed 32-bit integer.
#[derive(Debug, Clone, Copy, PartialEq, Eq, Structural, PartialOrd, Ord, Hash, Default)]
pub struct Au(pub i32);

/// `v` clamped into the `i32` range: the saturating result of an integer computation.
pub open spec fn sat_i32(v: int) -> i32 {
    if v > i32::MAX { i32::MAX } else if v < i32::MIN { i32::MIN } else { v as i32 }
}

/// Clamps a 64-bit value into the `i32` range.
pub fn clamp_i64(v: i64) -> (r: i32)
    ensures
        r == sat_i32(v as int),
{
    if v > i32::MAX as i64 {
        i32::MAX
    } else if v < i32::MIN as i64 {
        i32::MIN
    } else {
        v as i32
    }
}

impl Au {
    /// Zero app units.
    pub fn zero() -> (r: Au)
        ensures
            r.0 == 0,
    {
        Au(0)
    }

    /// The largest representable value, `i32::MAX` app units: the conventional
    /// "unconstrained" sentinel for an available size with no upper bound.
    pub fn max_value() -> (r: Au)
        ensures
            r.0 == i32::MAX,
    {
        Au(i32::MAX)
    }

    /// Adds two app-unit values, saturating at the `i32` range instead of overflowing.
    pub fn saturating_add(self, other: Au) -> (r: Au)
        ensures
            r.0 == sat_i32(self.0 + other.0),
    {
        Au(clamp_i64(self.0 as i64 + other.0 as i64))
    }

    /// Subtracts `other` from `self`, saturating at the `i32` range instead of overflowing.
    pub fn saturating_sub(self, other: Au) -> (r: Au)
        ensures
            r.0 == sat_i32(self.0 - other.0),
    {
        Au(clamp_i64(self.0 as i64 - other.0 as i64))
    }
}

} // verus!
