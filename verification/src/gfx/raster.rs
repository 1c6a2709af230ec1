//! Pixel geometry of the CPU raster backend: snapping app units to whole device pixels,
//! intersecting clip rectangles, and the strips a border is painted as.
use vstd::prelude::*;

use crate::layout::au::{sat_i32, Au};
use crate::layout::geom::{Point, Rect, Sides, Size};

verus! {

/// The largest canvas dimension, in device pixels, the backend accepts.
pub const MAX_DIMENSION: u32 = 16384;

/// App units per CSS pixel.
pub const AU_PER_PX: i32 = 60;

/// Counters describing the glyph work one rasterisation did.
#[derive(Debug, Default, Clone, Copy, PartialEq, Eq, Structural)]
pub struct RasterStats {
    /// How many glyph masks were actually rasterised (cache misses).
    pub glyphs_rendered: u64,
    /// How many glyph draws were served from an already-rasterised mask.
    pub cache_hits: u64,
}

/// Largest whole pixel at or below `a` app units.
pub open spec fn floor_px_spec(a: int) -> int {
    a / 60
}

/// Smallest whole pixel at or above `a` app units.
pub open spec fn ceil_px_spec(a: int) -> int {
    if a % 60 == 0 {
        a / 60
    } else {
        a / 60 + 1
    }
}

/// Nearest whole pixel to `a` app units, halves rounding up.
pub open spec fn round_px_spec(a: int) -> int {
    if (a % 60) * 2 >= 60 {
        a / 60 + 1
    } else {
        a / 60
    }
}

/// `v / 60` rounded toward negative infinity, with the remainder.
fn div_floor_60(v: i32) -> (r: (i32, i32))
    ensures
        r.0 == v as int / 60,
        r.1 == v as int % 60,
{
    if v >= 0 {
        let u = v as u32;
        ((u / 60) as i32, (u % 60) as i32)
    } else {
        let n: u32 = (-(v as i64)) as u32;
        let q: u32 = (n + 59) / 60;
        let rem: i64 = (v as i64) + 60 * (q as i64);
        proof {
            assert(v as int == -(q as int) * 60 + rem as int);
            assert(0 <= rem < 60);
            vstd::arithmetic::div_mod::lemma_fundamental_div_mod_converse(
                v as int,
                60,
                -(q as int),
                rem as int,
            );
        }
        (-(q as i64) as i32, rem as i32)
    }
}

/// Largest whole pixel at or below `au`.
pub fn floor_px(au: Au) -> (r: i32)
    ensures
        r == floor_px_spec(au.0 as int),
{
    div_floor_60(au.0).0
}

/// Smallest whole pixel at or above `au`.
pub fn ceil_px(au: Au) -> (r: i32)
    ensures
        r == ceil_px_spec(au.0 as int),
{
    let (floor, rem) = div_floor_60(au.0);
    if rem == 0 {
        floor
    } else {
        floor + 1
    }
}

/// Nearest whole pixel to `au`, halves rounding up (toward positive x/y), so a run moved by
/// a whole number of pixels paints identically wherever it is.
pub fn round_px(au: Au) -> (r: i32)
    ensures
        r == round_px_spec(au.0 as int),
{
    let (floor, rem) = div_floor_60(au.0);
    if rem * 2 >= 60 {
        floor + 1
    } else {
        floor
    }
}

/// A whole-pixel, half-open device rectangle: `x0 <= x < x1`, `y0 <= y < y1`.
#[derive(Debug, Clone, Copy, PartialEq, Eq, Structural)]
pub struct PixelClip {
    /// Left edge (inclusive).
    pub x0: i64,
    /// Top edge (inclusive).
    pub y0: i64,
    /// Right edge (exclusive).
    pub x1: i64,
    /// Bottom edge (exclusive).
    pub y1: i64,
}

/// Snaps an app-unit clip rect inward to whole device pixels (a pixel only partly inside
/// is dropped), or `None` if nothing survives.
pub fn pixel_clip(clip: Rect) -> (r: Option<PixelClip>)
    ensures
        ({
            let x0 = ceil_px_spec(clip.origin.x.0 as int);
            let y0 = ceil_px_spec(clip.origin.y.0 as int);
            let x1 = floor_px_spec(sat_i32(clip.origin.x.0 + clip.size.w.0) as int);
            let y1 = floor_px_spec(sat_i32(clip.origin.y.0 + clip.size.h.0) as int);
            r == (if x1 <= x0 || y1 <= y0 {
                None
            } else {
                Some(PixelClip { x0: x0 as i64, y0: y0 as i64, x1: x1 as i64, y1: y1 as i64 })
            })
        }),
{
    let x0 = ceil_px(clip.origin.x) as i64;
    let y0 = ceil_px(clip.origin.y) as i64;
    let x1 = floor_px(clip.right()) as i64;
    let y1 = floor_px(clip.bottom()) as i64;
    if x1 <= x0 || y1 <= y0 {
        return None;
    }
    Some(PixelClip { x0, y0, x1, y1 })
}

/// The intersection of two rects, or the empty rect at the origin if they do not overlap.
pub open spec fn intersect_spec(a: Rect, b: Rect) -> Rect {
    let left = if a.origin.x.0 >= b.origin.x.0 { a.origin.x.0 } else { b.origin.x.0 };
    let top = if a.origin.y.0 >= b.origin.y.0 { a.origin.y.0 } else { b.origin.y.0 };
    let ar = sat_i32(a.origin.x.0 + a.size.w.0);
    let br = sat_i32(b.origin.x.0 + b.size.w.0);
    let ab = sat_i32(a.origin.y.0 + a.size.h.0);
    let bb = sat_i32(b.origin.y.0 + b.size.h.0);
    let right = if ar <= br { ar } else { br };
    let bottom = if ab <= bb { ab } else { bb };
    if right <= left || bottom <= top {
        Rect { origin: Point { x: Au(0), y: Au(0) }, size: Size { w: Au(0), h: Au(0) } }
    } else {
        Rect {
            origin: Point { x: Au(left), y: Au(top) },
            size: Size { w: Au(sat_i32(right - left)), h: Au(sat_i32(bottom - top)) },
        }
    }
}

/// The intersection of two rects, in app units, or an empty rect if they do not overlap.
/// Total: the subtractions saturate rather than overflowing.
pub fn intersect(a: Rect, b: Rect) -> (r: Rect)
    ensures
        r == intersect_spec(a, b),
{
    let left = if a.origin.x.0 >= b.origin.x.0 { a.origin.x } else { b.origin.x };
    let top = if a.origin.y.0 >= b.origin.y.0 { a.origin.y } else { b.origin.y };
    let ar = a.right();
    let br = b.right();
    let ab = a.bottom();
    let bb = b.bottom();
    let right = if ar.0 <= br.0 { ar } else { br };
    let bottom = if ab.0 <= bb.0 { ab } else { bb };
    if right.0 <= left.0 || bottom.0 <= top.0 {
        return Rect { origin: Point { x: Au(0), y: Au(0) }, size: Size { w: Au(0), h: Au(0) } };
    }
    Rect::new(
        Point { x: left, y: top },
        Size { w: right.saturating_sub(left), h: bottom.saturating_sub(top) },
    )
}

/// An intersection never extends past either rect: when it is not empty, it starts at or
/// after both origins and ends at or before both right and bottom edges.
pub proof fn lemma_intersect_within(a: Rect, b: Rect)
    ensures
        ({
            let r = intersect_spec(a, b);
            r.size.w.0 > 0 && r.size.h.0 > 0 ==> {
                &&& r.origin.x.0 >= a.origin.x.0 && r.origin.x.0 >= b.origin.x.0
                &&& r.origin.y.0 >= a.origin.y.0 && r.origin.y.0 >= b.origin.y.0
                &&& r.origin.x.0 + r.size.w.0 <= sat_i32(a.origin.x.0 + a.size.w.0)
                &&& r.origin.x.0 + r.size.w.0 <= sat_i32(b.origin.x.0 + b.size.w.0)
                &&& r.origin.y.0 + r.size.h.0 <= sat_i32(a.origin.y.0 + a.size.h.0)
                &&& r.origin.y.0 + r.size.h.0 <= sat_i32(b.origin.y.0 + b.size.h.0)
            }
        }),
{
}

/// Intersection is symmetric.
pub proof fn lemma_intersect_commutes(a: Rect, b: Rect)
    ensures
        intersect_spec(a, b) == intersect_spec(b, a),
{
}

/// The display-list bounds of a `width` x `height` device-pixel canvas: the rect at the
/// origin of that many CSS pixels, in app units.
pub fn canvas_bounds(width: u32, height: u32) -> (r: Rect)
    requires
        width <= MAX_DIMENSION,
        height <= MAX_DIMENSION,
    ensures
        r.origin == (Point { x: Au(0), y: Au(0) }),
        r.size.w.0 == width * 60,
        r.size.h.0 == height * 60,
{
    Rect::new(
        Point { x: Au(0), y: Au(0) },
        Size { w: Au((width * 60) as i32), h: Au((height * 60) as i32) },
    )
}

/// `w` clamped into `0..=max(extent, 0)`.
pub open spec fn clamp_width(w: i32, extent: i32) -> i32 {
    let e = if extent >= 0 { extent } else { 0 };
    let v = if w >= 0 { w } else { 0 };
    if v <= e { v } else { e }
}

/// The strips a border is painted as: the top and bottom strips span the box's full width
/// (so each corner belongs to them); the left and right strips fill only the band between
/// them, and are absent when that band has no height.
#[derive(Debug, Clone, Copy, PartialEq, Eq, Structural)]
pub struct BorderStrips {
    /// The top strip.
    pub top: Rect,
    /// The bottom strip.
    pub bottom: Rect,
    /// The left and right strips, if the band between top and bottom has height.
    pub sides: Option<SideStrips>,
}

/// The left and right strips of a border.
#[derive(Debug, Clone, Copy, PartialEq, Eq, Structural)]
pub struct SideStrips {
    /// The left strip.
    pub left: Rect,
    /// The right strip.
    pub right: Rect,
}

/// The border strips of `rect` with side widths `widths`, each clamped into the box.
pub open spec fn border_strips_spec(rect: Rect, widths: Sides<Au>) -> BorderStrips {
    let top = clamp_width(widths.top.0, rect.size.h.0);
    let bottom = clamp_width(widths.bottom.0, rect.size.h.0);
    let left = clamp_width(widths.left.0, rect.size.w.0);
    let right = clamp_width(widths.right.0, rect.size.w.0);
    let o = rect.origin;
    let rect_bottom = sat_i32(o.y.0 + rect.size.h.0);
    let rect_right = sat_i32(o.x.0 + rect.size.w.0);
    let band_y = sat_i32(o.y.0 + top);
    let band_h = sat_i32(sat_i32(rect.size.h.0 - top) - bottom);
    BorderStrips {
        top: Rect { origin: o, size: Size { w: rect.size.w, h: Au(top) } },
        bottom: Rect {
            origin: Point { x: o.x, y: Au(sat_i32(rect_bottom - bottom)) },
            size: Size { w: rect.size.w, h: Au(bottom) },
        },
        sides: if band_h <= 0 {
            None
        } else {
            Some(
                SideStrips {
                    left: Rect { origin: Point { x: o.x, y: Au(band_y) }, size: Size { w: Au(left), h: Au(band_h) } },
                    right: Rect {
                        origin: Point { x: Au(sat_i32(rect_right - right)), y: Au(band_y) },
                        size: Size { w: Au(right), h: Au(band_h) },
                    },
                },
            )
        },
    }
}

/// `inner` has non-negative size and lies inside `outer`.
pub open spec fn rect_within(inner: Rect, outer: Rect) -> bool {
    &&& inner.size.w.0 >= 0
    &&& inner.size.h.0 >= 0
    &&& outer.origin.x.0 <= inner.origin.x.0
    &&& outer.origin.y.0 <= inner.origin.y.0
    &&& inner.origin.x.0 + inner.size.w.0 <= outer.origin.x.0 + outer.size.w.0
    &&& inner.origin.y.0 + inner.size.h.0 <= outer.origin.y.0 + outer.size.h.0
}

/// A border never paints outside its box, and its side strips sit exactly in the band
/// between the top and bottom strips, overlapping neither.
pub proof fn lemma_border_strips_within(rect: Rect, widths: Sides<Au>)
    requires
        rect.size.w.0 >= 0,
        rect.size.h.0 >= 0,
        rect.origin.x.0 + rect.size.w.0 <= i32::MAX,
        rect.origin.y.0 + rect.size.h.0 <= i32::MAX,
    ensures
        ({
            let s = border_strips_spec(rect, widths);
            &&& rect_within(s.top, rect)
            &&& rect_within(s.bottom, rect)
            &&& s.sides matches Some(sides) ==> {
                &&& rect_within(sides.left, rect)
                &&& rect_within(sides.right, rect)
                &&& sides.left.origin.y.0 == s.top.origin.y.0 + s.top.size.h.0
                &&& sides.left.origin.y.0 + sides.left.size.h.0 == s.bottom.origin.y.0
                &&& sides.right.origin.y == sides.left.origin.y
                &&& sides.right.size.h == sides.left.size.h
            }
        }),
{
}

/// `w` clamped into `0..=max(extent, 0)`.
fn clamp_au(w: Au, extent: Au) -> (r: Au)
    ensures
        r.0 == clamp_width(w.0, extent.0),
{
    let e = if extent.0 >= 0 { extent.0 } else { 0 };
    let v = if w.0 >= 0 { w.0 } else { 0 };
    Au(if v <= e { v } else { e })
}

/// The solid strips a border of `rect` with side widths `widths` is painted as (no mitred
/// corners): full-width top and bottom strips, left and right strips filling the band
/// between them. A zero-width side gives an empty strip.
pub fn border_strips(rect: Rect, widths: Sides<Au>) -> (r: BorderStrips)
    ensures
        r == border_strips_spec(rect, widths),
{
    let top = clamp_au(widths.top, rect.size.h);
    let bottom = clamp_au(widths.bottom, rect.size.h);
    let left = clamp_au(widths.left, rect.size.w);
    let right = clamp_au(widths.right, rect.size.w);
    let origin = rect.origin;
    let w = rect.size.w;
    let h = rect.size.h;
    let top_strip = Rect::new(origin, Size { w, h: top });
    let bottom_strip = Rect::new(
        Point { x: origin.x, y: rect.bottom().saturating_sub(bottom) },
        Size { w, h: bottom },
    );
    let band_y = origin.y.saturating_add(top);
    let band_h = h.saturating_sub(top).saturating_sub(bottom);
    if band_h.0 <= 0 {
        return BorderStrips { top: top_strip, bottom: bottom_strip, sides: None };
    }
    let left_strip = Rect::new(Point { x: origin.x, y: band_y }, Size { w: left, h: band_h });
    let right_strip = Rect::new(
        Point { x: rect.right().saturating_sub(right), y: band_y },
        Size { w: right, h: band_h },
    );
    BorderStrips { top: top_strip, bottom: bottom_strip, sides: Some(SideStrips { left: left_strip, right: right_strip }) }
}

} // verus!
