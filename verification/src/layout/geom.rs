//! Geometry primitives built on [`Au`], and the CSS keyword values the box tree
//! distinguishes.
use vstd::prelude::*;

use crate::layout::au::{sat_i32, Au};

verus! {

/// A point in 2D space, in app units.
#[derive(Debug, Clone, Copy, PartialEq, Eq, Structural, Default)]
pub struct Point {
    /// Horizontal offset.
    pub x: Au,
    /// Vertical offset.
    pub y: Au,
}

/// A width/height pair, in app units.
#[derive(Debug, Clone, Copy, PartialEq, Eq, Structural, Default)]
pub struct Size {
    /// Width.
    pub w: Au,
    /// Height.
    pub h: Au,
}

/// An axis-aligned rectangle: an origin plus a size, in app units.
#[derive(Debug, Clone, Copy, PartialEq, Eq, Structural, Default)]
pub struct Rect {
    /// The rectangle's top-left corner.
    pub origin: Point,
    /// The rectangle's width and height.
    pub size: Size,
}

impl Rect {
    /// Builds a rect from an already-computed origin and size.
    pub fn new(origin: Point, size: Size) -> (r: Rect)
        ensures
            r.origin == origin,
            r.size == size,
    {
        Rect { origin, size }
    }

    /// The right edge, `origin.x + size.w`, saturating rather than overflowing.
    pub fn right(&self) -> (r: Au)
        ensures
            r.0 == sat_i32(self.origin.x.0 + self.size.w.0),
    {
        self.origin.x.saturating_add(self.size.w)
    }

    /// The bottom edge, `origin.y + size.h`, saturating rather than overflowing.
    pub fn bottom(&self) -> (r: Au)
        ensures
            r.0 == sat_i32(self.origin.y.0 + self.size.h.0),
    {
        self.origin.y.saturating_add(self.size.h)
    }

    /// Whether the rect paints nothing: either dimension is zero or negative.
    pub fn is_empty(&self) -> (r: bool)
        ensures
            r == (self.size.w.0 <= 0 || self.size.h.0 <= 0),
    {
        self.size.w.0 <= 0 || self.size.h.0 <= 0
    }
}

/// A CSS box's four sides, in CSS's clockwise-from-top order, each holding one `T`.
#[derive(Debug, Clone, Copy, PartialEq, Eq, Default)]
pub struct Sides<T> {
    /// The top side.
    pub top: T,
    /// The right side.
    pub right: T,
    /// The bottom side.
    pub bottom: T,
    /// The left side.
    pub left: T,
}

impl<T: Copy> Sides<T> {
    /// A `Sides` with all four sides set to `value`.
    pub fn uniform(value: T) -> (r: Sides<T>)
        ensures
            r.top == value,
            r.right == value,
            r.bottom == value,
            r.left == value,
    {
        Sides { top: value, right: value, bottom: value, left: value }
    }
}

/// The CSS `display` values the box tree distinguishes.
#[derive(Debug, Clone, Copy, PartialEq, Eq, Structural, Default)]
pub enum Display {
    /// A block-level box.
    Block,
    /// An inline-level box.
    #[default]
    Inline,
    /// No box at all (CSS `display: none`).
    NoBox,
}

/// The CSS `position` values the box tree distinguishes.
#[derive(Debug, Clone, Copy, PartialEq, Eq, Structural, Default)]
pub enum Position {
    /// Stays in its normal flow position.
    #[default]
    Static,
    /// Stays in flow, then is offset without affecting anything else.
    Relative,
}

/// The CSS `white-space` values the box tree distinguishes.
#[derive(Debug, Clone, Copy, PartialEq, Eq, Structural, Default)]
pub enum WhiteSpace {
    /// Whitespace sequences collapse to a single space.
    #[default]
    Normal,
    /// Whitespace is preserved verbatim.
    Pre,
}

/// The CSS `text-align` values the box tree distinguishes.
#[derive(Debug, Clone, Copy, PartialEq, Eq, Structural, Default)]
pub enum TextAlign {
    /// Left-aligned.
    #[default]
    Left,
    /// Right-aligned.
    Right,
    /// Centered.
    Center,
}

/// CSS `box-sizing`.
#[derive(Debug, Clone, Copy, PartialEq, Eq, Structural, Default)]
pub enum BoxSizing {
    /// `width`/`height` set the content box.
    #[default]
    ContentBox,
    /// `width`/`height` set the border box.
    BorderBox,
}

/// The CSS `overflow` values the box tree distinguishes.
#[derive(Debug, Clone, Copy, PartialEq, Eq, Structural, Default)]
pub enum Overflow {
    /// Content is never clipped.
    #[default]
    Visible,
    /// Content outside the padding edge is clipped away.
    Hidden,
}

/// A straight (non-premultiplied) 8-bit-per-channel RGBA colour.
#[derive(Debug, Clone, Copy, PartialEq, Eq, Structural, Default)]
pub struct Rgba8 {
    /// Red channel.
    pub r: u8,
    /// Green channel.
    pub g: u8,
    /// Blue channel.
    pub b: u8,
    /// Alpha channel (0 = fully transparent, 255 = fully opaque).
    pub a: u8,
}

impl Rgba8 {
    /// Opaque black, the initial value of `color`.
    pub fn black() -> (c: Rgba8)
        ensures
            c == (Rgba8 { r: 0, g: 0, b: 0, a: 255 }),
    {
        Rgba8 { r: 0, g: 0, b: 0, a: 255 }
    }

    /// Fully transparent black, the initial value of `background-color`.
    pub fn transparent() -> (c: Rgba8)
        ensures
            c == (Rgba8 { r: 0, g: 0, b: 0, a: 0 }),
    {
        Rgba8 { r: 0, g: 0, b: 0, a: 0 }
    }
}

} // verus!
