use chromelight::fonts::db::FontKey;
use chromelight::gfx::blend::{mul_255, source_over, PremulPixel};
use chromelight::gfx::blit::blit;
use chromelight::gfx::clip::{checked_canvas_bounds, ClipStack, PixmapTooLarge};
use chromelight::gfx::glyph_cache::{GlyphBitmap, GlyphCache, MAX_CACHE_BYTES};
use chromelight::gfx::raster::{
    border_strips, canvas_bounds, ceil_px, floor_px, intersect, pixel_clip, round_px, PixelClip, MAX_DIMENSION,
};
use chromelight::layout::au::Au;
use chromelight::layout::geom::{Point, Rect, Rgba8, Sides, Size};

/// A rect from CSS pixel coordinates that are whole multiples of 1/60 px.
fn rect_au(x: i32, y: i32, w: i32, h: i32) -> Rect {
    Rect::new(Point { x: Au(x), y: Au(y) }, Size { w: Au(w), h: Au(h) })
}

fn px(v: i32) -> i32 {
    v * 60
}

#[test]
fn coverage_should_read_row_major() {
    let bitmap = GlyphBitmap { left: 0, top: 0, width: 2, height: 2, alpha: vec![1, 2, 3, 4] };
    assert_eq!(bitmap.coverage(0, 0), Some(1));
    assert_eq!(bitmap.coverage(1, 0), Some(2));
    assert_eq!(bitmap.coverage(0, 1), Some(3));
    assert_eq!(bitmap.coverage(1, 1), Some(4));
}

#[test]
fn coverage_should_be_none_out_of_range() {
    let bitmap = GlyphBitmap { left: 0, top: 0, width: 2, height: 2, alpha: vec![1, 2, 3, 4] };
    assert_eq!(bitmap.coverage(2, 0), None);
    assert_eq!(bitmap.coverage(0, 2), None);
}

#[test]
fn coverage_should_be_none_when_data_is_shorter_than_declared() {
    let bitmap = GlyphBitmap { left: 0, top: 0, width: 4, height: 4, alpha: vec![9] };
    assert_eq!(bitmap.coverage(0, 0), Some(9));
    assert_eq!(bitmap.coverage(3, 3), None);
}

fn key() -> (FontKey, u16, u32) {
    (FontKey(0), 7, 960)
}

#[test]
fn insert_should_make_the_next_get_a_hit() {
    let mut cache = GlyphCache::new();
    let k = key();
    assert!(cache.get(&k).is_none());
    cache.insert(k, GlyphBitmap { left: 1, top: 2, width: 1, height: 1, alpha: vec![255] });
    let hit = cache.get(&k);
    assert!(hit.is_some());
    assert_eq!(hit.map(|b| b.left), Some(1));
}

#[test]
fn insert_should_stop_caching_past_the_byte_budget() {
    let mut cache = GlyphCache::new();
    let (font, _, _) = key();
    let big = GlyphBitmap { left: 0, top: 0, width: 1, height: 1, alpha: vec![0; MAX_CACHE_BYTES] };
    cache.insert((font, 1, 960), big);
    cache.insert((font, 2, 960), GlyphBitmap { left: 0, top: 0, width: 1, height: 1, alpha: vec![255] });
    assert!(cache.get(&(font, 1, 960)).is_some());
    assert!(cache.get(&(font, 2, 960)).is_none(), "the second entry must be dropped once the budget is spent");
}

#[test]
fn insert_returns_the_bitmap_even_when_over_budget() {
    let mut cache = GlyphCache::new();
    let big = GlyphBitmap { left: 0, top: 0, width: 1, height: 1, alpha: vec![0; MAX_CACHE_BYTES + 1] };
    let handle = cache.insert(key(), big);
    assert_eq!(handle.alpha.len(), MAX_CACHE_BYTES + 1);
    assert!(cache.get(&key()).is_none());
}

#[test]
fn distinct_keys_do_not_collide() {
    let mut cache = GlyphCache::new();
    cache.insert((FontKey(1), 0, 0), GlyphBitmap { left: 5, top: 0, width: 0, height: 0, alpha: vec![] });
    assert!(cache.get(&(FontKey(0), 0, 0)).is_none());
    assert!(cache.get(&(FontKey(0), 1, 0)).is_none());
    assert!(cache.get(&(FontKey(0), 0, 1)).is_none());
    assert_eq!(cache.get(&(FontKey(1), 0, 0)).map(|b| b.left), Some(5));
}

#[test]
fn mul_255_should_be_exact_at_the_endpoints() {
    for v in [0u8, 1, 51, 128, 204, 254, 255] {
        assert_eq!(mul_255(v, 255), v, "x * 255 / 255 == x for {v}");
        assert_eq!(mul_255(v, 0), 0);
    }
}

#[test]
fn mul_255_rounds_to_nearest() {
    assert_eq!(mul_255(128, 128), 64);
    assert_eq!(mul_255(1, 128), 1);
    assert_eq!(mul_255(1, 127), 0);
    assert_eq!(mul_255(204, 255), 204);
}

#[test]
fn source_over_should_blend_black_over_white() {
    let white = PremulPixel::from_rgba(255, 255, 255, 255).expect("opaque white is valid");
    let black = Rgba8::black();
    assert_eq!(source_over(white, black, 255).map(|p| (p.r, p.a)), Some((0, 255)));
    assert_eq!(source_over(white, black, 204).map(|p| (p.r, p.a)), Some((51, 255)));
    assert_eq!(source_over(white, black, 52).map(|p| (p.r, p.a)), Some((203, 255)));
    assert_eq!(source_over(white, black, 0), None);
}

#[test]
fn premultiplied_pixels_reject_channels_above_alpha() {
    assert!(PremulPixel::from_rgba(10, 0, 0, 5).is_none());
    assert!(PremulPixel::from_rgba(5, 5, 5, 5).is_some());
}

#[test]
fn floor_ceil_round_should_agree_on_whole_pixels() {
    let au = Au(px(7));
    assert_eq!(floor_px(au), 7);
    assert_eq!(ceil_px(au), 7);
    assert_eq!(round_px(au), 7);
}

#[test]
fn floor_ceil_round_should_handle_fractions() {
    let au = Au(435);
    assert_eq!(floor_px(au), 7);
    assert_eq!(ceil_px(au), 8);
    assert_eq!(round_px(au), 7);
    assert_eq!(round_px(Au(450)), 8, "halves round up");
    assert_eq!(round_px(Au(465)), 8);
}

#[test]
fn floor_ceil_round_should_handle_negatives() {
    let au = Au(-435);
    assert_eq!(floor_px(au), -8);
    assert_eq!(ceil_px(au), -7);
    assert_eq!(round_px(au), -7);
}

#[test]
fn pixel_helpers_should_not_overflow_at_the_extremes() {
    for au in [Au(i32::MIN), Au(i32::MAX), Au(0)] {
        let _ = floor_px(au);
        let _ = ceil_px(au);
        let _ = round_px(au);
    }
    assert_eq!(floor_px(Au(i32::MIN)), -35791395);
    assert_eq!(ceil_px(Au(i32::MAX)), 35791395);
}

#[test]
fn pixel_clip_should_snap_inward() {
    let clip = pixel_clip(rect_au(90, 150, px(6), px(6))).unwrap_or(PixelClip { x0: 0, y0: 0, x1: 0, y1: 0 });
    assert_eq!((clip.x0, clip.y0, clip.x1, clip.y1), (2, 3, 7, 8));
}

#[test]
fn pixel_clip_should_be_none_for_a_sub_pixel_clip() {
    assert!(pixel_clip(rect_au(72, 72, 18, 18)).is_none());
}

#[test]
fn intersect_should_return_the_overlap() {
    let a = rect_au(0, 0, px(10), px(10));
    let b = rect_au(px(5), px(5), px(10), px(10));
    assert_eq!(intersect(a, b), rect_au(px(5), px(5), px(5), px(5)));
}

#[test]
fn intersect_should_be_empty_for_disjoint_rects() {
    let a = rect_au(0, 0, px(10), px(10));
    let b = rect_au(px(20), px(20), px(5), px(5));
    assert!(intersect(a, b).is_empty());
}

#[test]
fn intersect_should_be_empty_for_touching_rects() {
    let a = rect_au(0, 0, px(10), px(10));
    let b = rect_au(px(10), 0, px(10), px(10));
    assert!(intersect(a, b).is_empty());
}

#[test]
fn intersect_should_saturate_at_the_extremes() {
    let a = Rect::new(Point { x: Au(i32::MIN), y: Au(i32::MIN) }, Size { w: Au::max_value(), h: Au::max_value() });
    let b = Rect::new(Point { x: Au::zero(), y: Au::zero() }, Size { w: Au::max_value(), h: Au::max_value() });
    let _ = intersect(a, b);
}

#[test]
fn intersect_is_symmetric_on_an_example() {
    let a = rect_au(3, 7, 100, 50);
    let b = rect_au(40, -10, 30, 500);
    assert_eq!(intersect(a, b), intersect(b, a));
}

#[test]
fn canvas_bounds_should_be_exact_for_the_largest_allowed_canvas() {
    let bounds = canvas_bounds(MAX_DIMENSION, MAX_DIMENSION);
    assert_eq!(bounds.origin, Point { x: Au(0), y: Au(0) });
    assert_eq!(bounds.size.w, Au(983_040));
    assert_eq!(bounds.size.h, Au(983_040));
}

#[test]
fn border_should_paint_four_strips() {
    let rect = rect_au(0, 0, px(10), px(10));
    let widths = Sides { top: Au(px(1)), right: Au(px(2)), bottom: Au(px(3)), left: Au(px(4)) };
    let s = border_strips(rect, widths);
    assert_eq!(s.top, rect_au(0, 0, px(10), px(1)));
    assert_eq!(s.bottom, rect_au(0, px(7), px(10), px(3)));
    let sides = s.sides.expect("band has height");
    assert_eq!(sides.left, rect_au(0, px(1), px(4), px(6)));
    assert_eq!(sides.right, rect_au(px(8), px(1), px(2), px(6)));
}

#[test]
fn border_should_handle_top_plus_bottom_exceeding_height() {
    let rect = rect_au(0, 0, px(10), px(4));
    let widths = Sides::uniform(Au(px(3)));
    let s = border_strips(rect, widths);
    assert!(s.sides.is_none());
    assert_eq!(s.top.size.h, Au(px(3)));
}

#[test]
fn border_should_clamp_negative_widths_to_zero() {
    let rect = rect_au(0, 0, px(10), px(10));
    let s = border_strips(rect, Sides::uniform(Au(-5)));
    assert_eq!(s.top.size.h, Au(0));
    assert!(s.top.is_empty());
}

fn blank(n: usize) -> Vec<PremulPixel> {
    vec![PremulPixel { r: 0, g: 0, b: 0, a: 0 }; n]
}

const RED: Rgba8 = Rgba8 { r: 255, g: 0, b: 0, a: 255 };
const WHOLE: PixelClip = PixelClip { x0: 0, y0: 0, x1: 100, y1: 100 };

#[test]
fn blit_paints_the_mask_below_and_right_of_the_pen() {
    let mut pixels = blank(9);
    let bitmap = GlyphBitmap { left: 0, top: 1, width: 1, height: 1, alpha: vec![255] };
    blit(&mut pixels, 3, 3, &bitmap, 1, 2, RED, WHOLE);
    for (i, p) in pixels.iter().enumerate() {
        if i == 4 {
            assert_eq!(*p, PremulPixel { r: 255, g: 0, b: 0, a: 255 });
        } else {
            assert_eq!(*p, PremulPixel { r: 0, g: 0, b: 0, a: 0 });
        }
    }
}

#[test]
fn blit_respects_the_clip_and_the_canvas_edge() {
    let bitmap = GlyphBitmap { left: -1, top: 0, width: 3, height: 1, alpha: vec![255, 255, 255] };
    let mut pixels = blank(4);
    blit(&mut pixels, 2, 2, &bitmap, 1, 0, RED, PixelClip { x0: 1, y0: 0, x1: 100, y1: 100 });
    let red = PremulPixel { r: 255, g: 0, b: 0, a: 255 };
    let none = PremulPixel { r: 0, g: 0, b: 0, a: 0 };
    assert_eq!(pixels, vec![none, red, none, none]);
}

#[test]
fn blit_skips_zero_coverage_and_short_canvases() {
    let bitmap = GlyphBitmap { left: 0, top: 0, width: 2, height: 1, alpha: vec![0, 128] };
    let mut pixels = blank(1);
    blit(&mut pixels, 2, 2, &bitmap, 0, 0, RED, WHOLE);
    assert_eq!(pixels, blank(1));
    let mut pixels = blank(4);
    blit(&mut pixels, 2, 2, &bitmap, 0, 0, RED, WHOLE);
    assert_eq!(pixels[0], PremulPixel { r: 0, g: 0, b: 0, a: 0 });
    assert_eq!(pixels[1], PremulPixel { r: 128, g: 0, b: 0, a: 128 });
}

#[test]
fn canvas_sizes_outside_the_limit_are_refused() {
    assert_eq!(checked_canvas_bounds(0, 10), Err(PixmapTooLarge { width: 0, height: 10 }));
    assert_eq!(checked_canvas_bounds(10, MAX_DIMENSION + 1), Err(PixmapTooLarge { width: 10, height: MAX_DIMENSION + 1 }));
    assert_eq!(checked_canvas_bounds(MAX_DIMENSION, 2), Ok(rect_au(0, 0, px(16384), px(2))));
}

#[test]
fn clip_stack_intersects_pushes_and_keeps_its_bottom() {
    let bounds = rect_au(0, 0, px(100), px(100));
    let mut clips = ClipStack::new(bounds);
    assert_eq!(clips.current(), bounds);
    clips.push(rect_au(px(50), px(50), px(100), px(100)));
    assert_eq!(clips.current(), rect_au(px(50), px(50), px(50), px(50)));
    clips.push(rect_au(px(200), px(0), px(10), px(10)));
    assert!(clips.current().is_empty());
    assert_eq!(clips.depth(), 3);
    clips.pop();
    clips.pop();
    clips.pop();
    assert_eq!(clips.depth(), 1);
    assert_eq!(clips.current(), bounds);
}
