//! The decisions a rasterisation makes before and between its draws: whether the canvas
//! size is acceptable, and the stack of clip rectangles every draw is clipped to.
use vstd::prelude::*;

use crate::gfx::raster::{canvas_bounds, intersect, intersect_spec, lemma_intersect_within, MAX_DIMENSION};
use crate::layout::au::{sat_i32, Au};
use crate::layout::geom::{Point, Rect};

verus! {

/// A canvas size outside `1..=MAX_DIMENSION` on some axis.
#[derive(Debug, Clone, Copy, PartialEq, Eq, Structural)]
pub struct PixmapTooLarge {
    /// The requested width, in device pixels.
    pub width: u32,
    /// The requested height, in device pixels.
    pub height: u32,
}

/// The display-list bounds of a `width` x `height` canvas, or the refusal when either edge
/// is zero or larger than [`MAX_DIMENSION`]. The size is checked before anything else.
pub fn checked_canvas_bounds(width: u32, height: u32) -> (r: Result<Rect, PixmapTooLarge>)
    ensures
        (1 <= width <= MAX_DIMENSION && 1 <= height <= MAX_DIMENSION) <==> r is Ok,
        r matches Ok(b) ==> b.origin == (Point { x: Au(0), y: Au(0) }) && b.size.w.0 == width * 60
            && b.size.h.0 == height * 60,
        r matches Err(e) ==> e == (PixmapTooLarge { width, height }),
{
    if width == 0 || height == 0 || width > MAX_DIMENSION || height > MAX_DIMENSION {
        return Err(PixmapTooLarge { width, height });
    }
    Ok(canvas_bounds(width, height))
}

/// Whether `r` paints nothing (a non-positive dimension).
pub open spec fn rect_empty(r: Rect) -> bool {
    r.size.w.0 <= 0 || r.size.h.0 <= 0
}

/// `r` is empty, or starts at or after `outer`'s origin and its right and bottom edges are
/// at or before `outer`'s.
pub open spec fn clipped_to(r: Rect, outer: Rect) -> bool {
    rect_empty(r) || {
        &&& r.origin.x.0 >= outer.origin.x.0
        &&& r.origin.y.0 >= outer.origin.y.0
        &&& sat_i32(r.origin.x.0 + r.size.w.0) <= sat_i32(outer.origin.x.0 + outer.size.w.0)
        &&& sat_i32(r.origin.y.0 + r.size.h.0) <= sat_i32(outer.origin.y.0 + outer.size.h.0)
    }
}

/// The stack of clip rectangles of one rasterisation: the canvas rect at the bottom, and
/// each pushed clip intersected with the one below it.
pub struct ClipStack {
    clips: Vec<Rect>,
}

impl ClipStack {
    /// The clips, bottom first.
    pub closed spec fn spec_clips(&self) -> Seq<Rect> {
        self.clips@
    }

    /// The stack always holds its bottom entry, and every clip lies inside the bottom one.
    pub open spec fn wf(&self) -> bool {
        &&& self.spec_clips().len() >= 1
        &&& forall|k: int|
            0 <= k < self.spec_clips().len() ==> clipped_to(#[trigger] self.spec_clips()[k], self.spec_clips()[0])
    }

    /// A stack holding only `bounds`.
    pub fn new(bounds: Rect) -> (s: ClipStack)
        ensures
            s.wf(),
            s.spec_clips() == seq![bounds],
    {
        let mut clips = Vec::new();
        clips.push(bounds);
        ClipStack { clips }
    }

    /// The clip every draw is currently clipped to: the top of the stack.
    pub fn current(&self) -> (r: Rect)
        requires
            self.wf(),
        ensures
            r == self.spec_clips().last(),
    {
        self.clips[self.clips.len() - 1]
    }

    /// How many clips are on the stack, the bottom one included.
    pub fn depth(&self) -> (r: usize)
        ensures
            r == self.spec_clips().len(),
    {
        self.clips.len()
    }

    /// Pushes `rect` intersected with the current clip.
    pub fn push(&mut self, rect: Rect)
        requires
            old(self).wf(),
        ensures
            final(self).wf(),
            final(self).spec_clips() == old(self).spec_clips().push(
                intersect_spec(old(self).spec_clips().last(), rect),
            ),
    {
        let current = self.current();
        let next = intersect(current, rect);
        proof {
            lemma_intersect_within(current, rect);
            let bottom = self.clips@[0];
            assert(clipped_to(current, bottom));
            if !rect_empty(next) {
                assert(!rect_empty(current));
            }
        }
        self.clips.push(next);
        proof {
            assert forall|k: int| 0 <= k < self.clips@.len() implies clipped_to(
                #[trigger] self.clips@[k],
                self.clips@[0],
            ) by {
                if k < self.clips@.len() - 1 {
                    assert(self.clips@[k] == old(self).clips@[k]);
                }
            }
        }
    }

    /// Pops back to the previous clip; the bottom entry is never popped.
    pub fn pop(&mut self)
        requires
            old(self).wf(),
        ensures
            final(self).wf(),
            final(self).spec_clips() == (if old(self).spec_clips().len() > 1 {
                old(self).spec_clips().drop_last()
            } else {
                old(self).spec_clips()
            }),
    {
        if self.clips.len() > 1 {
            self.clips.pop();
            proof {
                assert forall|k: int| 0 <= k < self.clips@.len() implies clipped_to(
                    #[trigger] self.clips@[k],
                    self.clips@[0],
                ) by {
                    assert(self.clips@[k] == old(self).clips@[k]);
                }
            }
        }
    }
}

} // verus!
