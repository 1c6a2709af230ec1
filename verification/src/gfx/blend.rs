//! Integer alpha arithmetic for compositing glyph coverage onto premultiplied pixels.
//! Everything here is exact integer arithmetic, so a composite is bit-identical on every
//! platform.
use vstd::prelude::*;

use crate::layout::geom::Rgba8;

verus! {

/// `a * b / 255`, rounded to nearest: the exact value the 8-bit alpha multiply computes.
pub open spec fn mul_255_spec(a: u8, b: u8) -> int {
    (2 * a * b + 255) / 510
}

/// `a * b / 255`, rounded, in integers: the standard 8-bit alpha multiply. Exact at the
/// endpoints: `mul_255(x, 255) == x` and `mul_255(x, 0) == 0`.
pub fn mul_255(a: u8, b: u8) -> (r: u8)
    ensures
        r == mul_255_spec(a, b),
{
    let x: u32 = a as u32;
    let y: u32 = b as u32;
    assert(x * y <= 65025) by (nonlinear_arith)
        requires
            x <= 255,
            y <= 255,
    ;
    let t: u32 = x * y + 128;
    assert(t >> 8u32 <= t) by (bit_vector);
    let scaled: u32 = (t + (t >> 8u32)) >> 8u32;
    proof {
        assert(((t + (t >> 8u32)) as u32 >> 8u32) == (2 * x * y + 255) / 510) by (bit_vector)
            requires
                x <= 255,
                y <= 255,
                t == x * y + 128,
        ;
    }
    assert(scaled <= 255) by (bit_vector)
        requires
            scaled == ((t + (t >> 8u32)) as u32 >> 8u32),
            t <= 65153,
    ;
    scaled as u8
}

/// `x` clamped to 255: the result of a saturating 8-bit addition.
pub open spec fn sat_u8(x: int) -> u8 {
    if x > 255 {
        255
    } else {
        x as u8
    }
}

/// The 8-bit multiply is exact at the endpoints: `x * 255 / 255 == x`, `x * 0 / 255 == 0`.
pub proof fn lemma_mul_255_endpoints(x: u8)
    ensures
        mul_255_spec(x, 255) == x,
        mul_255_spec(x, 0) == 0,
        mul_255_spec(255, x) == x,
{
    assert((2 * x * 255 + 255) / 510 == x) by (nonlinear_arith);
    assert((2 * 255 * x + 255) / 510 == x) by (nonlinear_arith);
}

/// The 8-bit multiply is monotone in each argument.
pub proof fn lemma_mul_255_monotone(a: u8, b: u8, c: u8)
    requires
        a <= b,
    ensures
        mul_255_spec(a, c) <= mul_255_spec(b, c),
        mul_255_spec(c, a) <= mul_255_spec(c, b),
{
    assert(2 * a * c + 255 <= 2 * b * c + 255) by (nonlinear_arith)
        requires
            a <= b,
    ;
    assert(2 * c * a + 255 <= 2 * c * b + 255) by (nonlinear_arith)
        requires
            a <= b,
    ;
    assert((2 * a * c + 255) / 510 <= (2 * b * c + 255) / 510) by (nonlinear_arith)
        requires
            2 * a * c + 255 <= 2 * b * c + 255,
    ;
    assert((2 * c * a + 255) / 510 <= (2 * c * b + 255) / 510) by (nonlinear_arith)
        requires
            2 * c * a + 255 <= 2 * c * b + 255,
    ;
}

/// A premultiplied 8-bit RGBA pixel: no colour channel exceeds alpha.
#[derive(Debug, Clone, Copy, PartialEq, Eq, Structural)]
pub struct PremulPixel {
    /// Red, premultiplied.
    pub r: u8,
    /// Green, premultiplied.
    pub g: u8,
    /// Blue, premultiplied.
    pub b: u8,
    /// Alpha.
    pub a: u8,
}

/// Whether the channels form a valid premultiplied pixel.
pub open spec fn premultiplied(r: u8, g: u8, b: u8, a: u8) -> bool {
    r <= a && g <= a && b <= a
}

impl PremulPixel {
    /// The pixel with these premultiplied channels, or `None` if a colour channel exceeds
    /// alpha.
    pub fn from_rgba(r: u8, g: u8, b: u8, a: u8) -> (p: Option<PremulPixel>)
        ensures
            p == (if premultiplied(r, g, b, a) {
                Some(PremulPixel { r, g, b, a })
            } else {
                None
            }),
    {
        if r <= a && g <= a && b <= a {
            Some(PremulPixel { r, g, b, a })
        } else {
            None
        }
    }
}

/// One source-over channel: the source channel at `alpha` plus the destination channel at
/// the remaining `inv`, saturating.
pub open spec fn blend_channel(src: u8, alpha: u8, dst: u8, inv: u8) -> u8 {
    sat_u8(mul_255_spec(src, alpha) + mul_255_spec(dst, inv))
}

/// Source-over of the straight colour `color` at coverage `mask` onto the premultiplied
/// `dst`: `None` where the effective alpha is zero (nothing to do).
pub open spec fn source_over_spec(dst: PremulPixel, color: Rgba8, mask: u8) -> Option<PremulPixel> {
    let alpha = mul_255_spec(mask, color.a) as u8;
    let inv = (255 - alpha) as u8;
    if alpha == 0 {
        None
    } else {
        let r = blend_channel(color.r, alpha, dst.r, inv);
        let g = blend_channel(color.g, alpha, dst.g, inv);
        let b = blend_channel(color.b, alpha, dst.b, inv);
        let a = sat_u8(alpha + mul_255_spec(dst.a, inv));
        if premultiplied(r, g, b, a) {
            Some(PremulPixel { r, g, b, a })
        } else {
            None
        }
    }
}

/// Source-over composite of `color` at coverage `mask` onto the premultiplied `dst` pixel,
/// or `None` when the effective alpha is zero and there is nothing to write.
pub fn source_over(dst: PremulPixel, color: Rgba8, mask: u8) -> (r: Option<PremulPixel>)
    ensures
        r == source_over_spec(dst, color, mask),
{
    let alpha = mul_255(mask, color.a);
    if alpha == 0 {
        return None;
    }
    let inv = 255 - alpha;
    let r = mul_255(color.r, alpha).saturating_add(mul_255(dst.r, inv));
    let g = mul_255(color.g, alpha).saturating_add(mul_255(dst.g, inv));
    let b = mul_255(color.b, alpha).saturating_add(mul_255(dst.b, inv));
    let a = alpha.saturating_add(mul_255(dst.a, inv));
    PremulPixel::from_rgba(r, g, b, a)
}

/// Compositing preserves the premultiplied invariant: onto a valid premultiplied pixel,
/// source-over with any non-zero effective alpha always yields a pixel (never `None`).
pub proof fn lemma_source_over_keeps_premultiplied(dst: PremulPixel, color: Rgba8, mask: u8)
    requires
        premultiplied(dst.r, dst.g, dst.b, dst.a),
        mul_255_spec(mask, color.a) != 0,
    ensures
        source_over_spec(dst, color, mask) is Some,
{
    let alpha = mul_255_spec(mask, color.a) as u8;
    let inv = (255 - alpha) as u8;
    lemma_mul_255_monotone(mask, 255, color.a);
    lemma_mul_255_endpoints(color.a);
    lemma_mul_255_endpoints(alpha);
    lemma_mul_255_monotone(color.r, 255, alpha);
    lemma_mul_255_monotone(color.g, 255, alpha);
    lemma_mul_255_monotone(color.b, 255, alpha);
    lemma_mul_255_monotone(dst.r, dst.a, inv);
    lemma_mul_255_monotone(dst.g, dst.a, inv);
    lemma_mul_255_monotone(dst.b, dst.a, inv);
}

} // verus!
