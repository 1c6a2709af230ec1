//! Compositing one glyph coverage mask onto a premultiplied canvas.
use vstd::prelude::*;

use crate::gfx::blend::{source_over, source_over_spec, PremulPixel};
use crate::gfx::glyph_cache::{coverage_spec, GlyphBitmap};
use crate::gfx::raster::PixelClip;
use crate::layout::geom::Rgba8;

verus! {

/// Left edge of the visible region: the clip's, but never left of the canvas.
pub open spec fn visible_x0(clip: PixelClip) -> int {
    if clip.x0 > 0 { clip.x0 as int } else { 0 }
}

/// Top edge of the visible region.
pub open spec fn visible_y0(clip: PixelClip) -> int {
    if clip.y0 > 0 { clip.y0 as int } else { 0 }
}

/// Right edge (exclusive) of the visible region: the clip's, but never past the canvas.
pub open spec fn visible_x1(clip: PixelClip, canvas_w: u32) -> int {
    if clip.x1 < canvas_w { clip.x1 as int } else { canvas_w as int }
}

/// Bottom edge (exclusive) of the visible region.
pub open spec fn visible_y1(clip: PixelClip, canvas_h: u32) -> int {
    if clip.y1 < canvas_h { clip.y1 as int } else { canvas_h as int }
}

/// Device x of the mask's left column for a pen at `pen_x`.
pub open spec fn mask_dest_x(bitmap: GlyphBitmap, pen_x: i32) -> int {
    pen_x + bitmap.left
}

/// Device y of the mask's top row for a pen at `pen_y` (the mask's `top` measures upward).
pub open spec fn mask_dest_y(bitmap: GlyphBitmap, pen_y: i32) -> int {
    pen_y - bitmap.top
}

/// The coverage the mask puts on device pixel `(x, y)`: its byte there when the pixel is
/// inside the clip, the canvas and the mask, else `None`.
pub open spec fn mask_at(
    bitmap: GlyphBitmap,
    pen_x: i32,
    pen_y: i32,
    canvas_w: u32,
    canvas_h: u32,
    clip: PixelClip,
    x: int,
    y: int,
) -> Option<u8> {
    let col = x - mask_dest_x(bitmap, pen_x);
    let row = y - mask_dest_y(bitmap, pen_y);
    if visible_x0(clip) <= x < visible_x1(clip, canvas_w) && visible_y0(clip) <= y < visible_y1(
        clip,
        canvas_h,
    ) && 0 <= col < bitmap.width && 0 <= row < bitmap.height {
        coverage_spec(bitmap.width, bitmap.height, bitmap.alpha@, col as u32, row as u32)
    } else {
        None
    }
}

/// The row of pixel `i` in a row-major canvas `w` pixels wide.
pub open spec fn pixel_row(i: int, w: int) -> int {
    i / w
}

/// The column of pixel `i` in a row-major canvas `w` pixels wide.
pub open spec fn pixel_col(i: int, w: int) -> int {
    i % w
}

/// Pixel `i` of a `canvas_w`-wide row-major canvas after the blit: the source-over
/// composite of `color` at the mask's coverage there, or the old pixel where the mask puts
/// nothing (or the composite has nothing to write).
pub open spec fn blitted_pixel(
    old: PremulPixel,
    i: int,
    bitmap: GlyphBitmap,
    pen_x: i32,
    pen_y: i32,
    canvas_w: u32,
    canvas_h: u32,
    color: Rgba8,
    clip: PixelClip,
) -> PremulPixel {
    if canvas_w == 0 {
        old
    } else {
        match mask_at(bitmap, pen_x, pen_y, canvas_w, canvas_h, clip, pixel_col(i, canvas_w as int), pixel_row(i, canvas_w as int)) {
            Some(mask) => match source_over_spec(old, color, mask) {
                Some(p) => p,
                None => old,
            },
            None => old,
        }
    }
}

/// The whole canvas after the blit.
pub open spec fn blit_spec(
    old: Seq<PremulPixel>,
    bitmap: GlyphBitmap,
    pen_x: i32,
    pen_y: i32,
    canvas_w: u32,
    canvas_h: u32,
    color: Rgba8,
    clip: PixelClip,
) -> Seq<PremulPixel> {
    Seq::new(
        old.len(),
        |i: int| blitted_pixel(old[i], i, bitmap, pen_x, pen_y, canvas_w, canvas_h, color, clip),
    )
}

/// The 64-bit edge arithmetic of [`blit`] stays in range: the distances from the mask's
/// origin to the visible region's edges fit in an `i64`.
pub open spec fn blit_offsets_fit(bitmap: GlyphBitmap, pen_x: i32, pen_y: i32, canvas_w: u32, canvas_h: u32, clip: PixelClip) -> bool {
    &&& visible_x0(clip) - mask_dest_x(bitmap, pen_x) <= i64::MAX
    &&& visible_y0(clip) - mask_dest_y(bitmap, pen_y) <= i64::MAX
    &&& visible_x1(clip, canvas_w) - mask_dest_x(bitmap, pen_x) >= i64::MIN
    &&& visible_y1(clip, canvas_h) - mask_dest_y(bitmap, pen_y) >= i64::MIN
}

/// Composites one glyph mask onto the `canvas_w` x `canvas_h` row-major `pixels` with its
/// pen at `(pen_x, pen_y)` device pixels, touching only pixels inside `clip` and the canvas.
/// A pixel index past the end of `pixels` is skipped.
pub fn blit(
    pixels: &mut Vec<PremulPixel>,
    canvas_w: u32,
    canvas_h: u32,
    bitmap: &GlyphBitmap,
    pen_x: i32,
    pen_y: i32,
    color: Rgba8,
    clip: PixelClip,
)
    requires
        blit_offsets_fit(*bitmap, pen_x, pen_y, canvas_w, canvas_h, clip),
    ensures
        final(pixels)@ == blit_spec(old(pixels)@, *bitmap, pen_x, pen_y, canvas_w, canvas_h, color, clip),
{
    let ghost old_px = pixels@;
    let ghost spec_px = blit_spec(old_px, *bitmap, pen_x, pen_y, canvas_w, canvas_h, color, clip);
    if bitmap.width == 0 || bitmap.height == 0 {
        assert(pixels@ =~= spec_px);
        return;
    }
    let dest_x: i64 = pen_x as i64 + bitmap.left as i64;
    let dest_y: i64 = pen_y as i64 - bitmap.top as i64;
    let x0: i64 = if clip.x0 > 0 { clip.x0 } else { 0 };
    let y0: i64 = if clip.y0 > 0 { clip.y0 } else { 0 };
    let x1: i64 = if clip.x1 < canvas_w as i64 { clip.x1 } else { canvas_w as i64 };
    let y1: i64 = if clip.y1 < canvas_h as i64 { clip.y1 } else { canvas_h as i64 };
    let col_start: i64 = if x0 - dest_x > 0 { x0 - dest_x } else { 0 };
    let col_end: i64 = if x1 - dest_x < bitmap.width as i64 { x1 - dest_x } else { bitmap.width as i64 };
    let row_start: i64 = if y0 - dest_y > 0 { y0 - dest_y } else { 0 };
    let row_end: i64 = if y1 - dest_y < bitmap.height as i64 { y1 - dest_y } else { bitmap.height as i64 };
    if col_start >= col_end || row_start >= row_end {
        assert forall|i: int| 0 <= i < old_px.len() implies spec_px[i] == old_px[i] by {
            if canvas_w > 0 {
                let x = i % (canvas_w as int);
                let y = i / (canvas_w as int);
                assert(mask_at(*bitmap, pen_x, pen_y, canvas_w, canvas_h, clip, x, y) is None);
            }
        }
        assert(pixels@ =~= spec_px);
        return;
    }
    let ghost w = canvas_w as int;
    let stride: u64 = canvas_w as u64;
    let mut row: i64 = row_start;
    while row < row_end
        invariant
            w == canvas_w as int,
            w > 0,
            stride == canvas_w,
            pixels@.len() == old_px.len(),
            spec_px == blit_spec(old_px, *bitmap, pen_x, pen_y, canvas_w, canvas_h, color, clip),
            dest_x == mask_dest_x(*bitmap, pen_x),
            dest_y == mask_dest_y(*bitmap, pen_y),
            x0 == visible_x0(clip),
            y0 == visible_y0(clip),
            x1 == visible_x1(clip, canvas_w),
            y1 == visible_y1(clip, canvas_h),
            col_start == (if x0 - dest_x > 0 { x0 - dest_x } else { 0 }),
            col_end == (if x1 - dest_x < bitmap.width { x1 - dest_x } else { bitmap.width as int }),
            row_start == (if y0 - dest_y > 0 { y0 - dest_y } else { 0 }),
            row_end == (if y1 - dest_y < bitmap.height { y1 - dest_y } else { bitmap.height as int }),
            col_start < col_end,
            row_start <= row <= row_end,
            forall|i: int|
                0 <= i < old_px.len() ==> #[trigger] pixels@[i] == (if pixel_row(i, w) - dest_y < row {
                    spec_px[i]
                } else {
                    old_px[i]
                }),
        decreases row_end - row,
    {
        let y: u64 = (dest_y + row) as u64;
        assert(y < canvas_h);
        assert(y * stride <= 0xFFFF_FFFE_0000_0001u64) by (nonlinear_arith)
            requires
                y <= u32::MAX,
                stride <= u32::MAX,
        ;
        let row_base: u64 = y * stride;
        let mut col: i64 = col_start;
        while col < col_end
            invariant
                w == canvas_w as int,
                w > 0,
                stride == canvas_w,
                pixels@.len() == old_px.len(),
                spec_px == blit_spec(old_px, *bitmap, pen_x, pen_y, canvas_w, canvas_h, color, clip),
                dest_x == mask_dest_x(*bitmap, pen_x),
                dest_y == mask_dest_y(*bitmap, pen_y),
                x0 == visible_x0(clip),
                y0 == visible_y0(clip),
                x1 == visible_x1(clip, canvas_w),
                y1 == visible_y1(clip, canvas_h),
                col_start == (if x0 - dest_x > 0 { x0 - dest_x } else { 0 }),
                col_end == (if x1 - dest_x < bitmap.width { x1 - dest_x } else { bitmap.width as int }),
                row_start == (if y0 - dest_y > 0 { y0 - dest_y } else { 0 }),
                row_end == (if y1 - dest_y < bitmap.height { y1 - dest_y } else { bitmap.height as int }),
                row_start <= row < row_end,
                col_start <= col <= col_end,
                y == dest_y + row,
                row_base == y * stride,
                forall|i: int|
                    0 <= i < old_px.len() ==> #[trigger] pixels@[i] == (if pixel_row(i, w) - dest_y < row || (pixel_row(i, w) - dest_y == row && pixel_col(i, w) - dest_x < col) {
                        spec_px[i]
                    } else {
                        old_px[i]
                    }),
            decreases col_end - col,
        {
            let x: u64 = (dest_x + col) as u64;
            let ghost xi = x as int;
            let ghost yi = y as int;
            let ghost target = yi * w + xi;
            proof {
                assert forall|i: int| 0 <= i < old_px.len() && #[trigger] pixel_row(i, w) - dest_y == row && pixel_col(i, w) - dest_x == col implies i == target by {
                    vstd::arithmetic::div_mod::lemma_fundamental_div_mod(i, w);
                    assert(w * (i / w) == yi * w) by (nonlinear_arith)
                        requires
                            i / w == yi,
                            w > 0,
                    ;
                }
                vstd::arithmetic::div_mod::lemma_fundamental_div_mod_converse(target, w, yi, xi);
            }
            let ghost before = pixels@;
            assert(y * stride + x < 0x1_0000_0000_0000_0000) by (nonlinear_arith)
                requires
                    y <= u32::MAX,
                    stride <= u32::MAX,
                    x < stride,
            ;
            let index: u64 = row_base + x;
            let mask_opt = bitmap.coverage(col as u32, row as u32);
            proof {
                if target < old_px.len() {
                    assert(mask_at(*bitmap, pen_x, pen_y, canvas_w, canvas_h, clip, xi, yi) == mask_opt);
                    assert(before[target] == old_px[target]);
                }
            }
            match mask_opt {
                Some(mask) => {
                    if mask != 0 {
                        if index < pixels.len() as u64 {
                            let idx = index as usize;
                            let composed = source_over(pixels[idx], color, mask);
                            match composed {
                                Some(b) => {
                                    pixels.set(idx, b);
                                },
                                None => {},
                            }
                        }
                    }
                },
                None => {},
            }
            proof {
                assert forall|i: int| 0 <= i < old_px.len() && i != target implies pixels@[i] == before[i] by {}
                if target < old_px.len() {
                    assert(pixels@[target] == spec_px[target]);
                }
            }
            col = col + 1;
        }
        row = row + 1;
    }
    assert(pixels@ =~= spec_px);
}

} // verus!
