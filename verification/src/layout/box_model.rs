//! Integer box-model arithmetic of block layout: margin collapsing, min/max clamping, going
//! from one box to the box inside it, and shifting a box.
use vstd::prelude::*;

use crate::layout::au::{sat_i32, Au};
use crate::layout::geom::{Point, Rect, Sides, Size};

verus! {

/// A box's resolved box model, in app units.
#[derive(Debug, Clone, Copy, PartialEq, Eq)]
pub struct BoxModel {
    /// The resolved left margin.
    pub margin_left: Au,
    /// The resolved top margin.
    pub margin_top: Au,
    /// The resolved bottom margin.
    pub margin_bottom: Au,
    /// The padding widths.
    pub padding: Sides<Au>,
    /// The border widths.
    pub border: Sides<Au>,
    /// The content-box width.
    pub content_width: Au,
    /// The minimum content height.
    pub min_height: Au,
    /// The maximum content height, if any.
    pub max_height: Option<Au>,
    /// The content height, when the box's own height is definite.
    pub known_height: Option<Au>,
}

/// The largest of 0 and the margins.
pub open spec fn max_positive(ms: Seq<Au>) -> int
    decreases ms.len(),
{
    if ms.len() == 0 {
        0
    } else {
        let rest = max_positive(ms.drop_last());
        if ms.last().0 > rest { ms.last().0 as int } else { rest }
    }
}

/// The smallest of 0 and the margins.
pub open spec fn min_negative(ms: Seq<Au>) -> int
    decreases ms.len(),
{
    if ms.len() == 0 {
        0
    } else {
        let rest = min_negative(ms.drop_last());
        if ms.last().0 < rest { ms.last().0 as int } else { rest }
    }
}

/// Collapsing a set of adjoining margins (CSS 2.1 §8.3.1): the largest positive margin plus
/// the most negative one (each 0 if there is none), saturating.
pub open spec fn collapse_spec(ms: Seq<Au>) -> i32 {
    sat_i32(max_positive(ms) + min_negative(ms))
}

proof fn lemma_extremes_bounds(ms: Seq<Au>)
    ensures
        0 <= max_positive(ms) <= i32::MAX,
        i32::MIN <= min_negative(ms) <= 0,
    decreases ms.len(),
{
    if ms.len() > 0 {
        lemma_extremes_bounds(ms.drop_last());
    }
}

/// Collapses a whole set of adjoining margins at once: the largest positive margin plus the
/// most negative one. Computed over the set, not pairwise, so no intermediate result is
/// re-clamped; an empty set collapses to 0.
pub fn collapse_margin_set(margins: &[Au]) -> (r: Au)
    ensures
        r.0 == collapse_spec(margins@),
{
    let mut max_positive_au = Au::zero();
    let mut min_negative_au = Au::zero();
    let mut i: usize = 0;
    while i < margins.len()
        invariant
            i <= margins@.len(),
            max_positive_au.0 == max_positive(margins@.take(i as int)),
            min_negative_au.0 == min_negative(margins@.take(i as int)),
        decreases margins.len() - i,
    {
        let m = margins[i];
        proof {
            assert(margins@.take(i + 1).drop_last() =~= margins@.take(i as int));
        }
        if m.0 > max_positive_au.0 {
            max_positive_au = m;
        }
        if m.0 < min_negative_au.0 {
            min_negative_au = m;
        }
        i += 1;
    }
    proof {
        assert(margins@.take(i as int) =~= margins@);
    }
    max_positive_au.saturating_add(min_negative_au)
}

/// Collapses two adjoining margins (sibling collapsing).
pub fn collapse_margins(a: Au, b: Au) -> (r: Au)
    ensures
        r.0 == collapse_spec(seq![a, b]),
{
    let pair = [a, b];
    proof {
        assert(pair@ =~= seq![a, b]);
    }
    collapse_margin_set(vstd::array::array_as_slice(&pair))
}

/// Collapsing two margins does not depend on their order.
pub proof fn lemma_collapse_pair_symmetric(a: Au, b: Au)
    ensures
        collapse_spec(seq![a, b]) == collapse_spec(seq![b, a]),
{
    assert(seq![a, b].drop_last() =~= seq![a]);
    assert(seq![b, a].drop_last() =~= seq![b]);
    assert(seq![a].drop_last() =~= Seq::<Au>::empty());
    assert(seq![b].drop_last() =~= Seq::<Au>::empty());
    reveal_with_fuel(max_positive, 3);
    reveal_with_fuel(min_negative, 3);
}

/// When every margin is non-negative, they collapse to the largest of them.
pub proof fn lemma_collapse_nonnegative_is_max(ms: Seq<Au>)
    requires
        forall|i: int| 0 <= i < ms.len() ==> (#[trigger] ms[i]).0 >= 0,
    ensures
        collapse_spec(ms) == max_positive(ms),
        forall|i: int| 0 <= i < ms.len() ==> (#[trigger] ms[i]).0 <= collapse_spec(ms),
    decreases ms.len(),
{
    lemma_extremes_bounds(ms);
    if ms.len() > 0 {
        lemma_collapse_nonnegative_is_max(ms.drop_last());
        lemma_extremes_bounds(ms.drop_last());
        assert forall|i: int| 0 <= i < ms.len() implies (#[trigger] ms[i]).0 <= max_positive(ms) by {
            if i < ms.len() - 1 {
                assert(ms.drop_last()[i] == ms[i]);
            }
        }
        assert(min_negative(ms) == 0) by {
            lemma_min_negative_zero(ms);
        }
    }
}

proof fn lemma_min_negative_zero(ms: Seq<Au>)
    requires
        forall|i: int| 0 <= i < ms.len() ==> (#[trigger] ms[i]).0 >= 0,
    ensures
        min_negative(ms) == 0,
    decreases ms.len(),
{
    if ms.len() > 0 {
        assert forall|i: int| 0 <= i < ms.drop_last().len() implies (#[trigger] ms.drop_last()[i]).0
            >= 0 by {
            assert(ms.drop_last()[i] == ms[i]);
        }
        lemma_min_negative_zero(ms.drop_last());
    }
}

/// `v` clamped to `[min, max]` (CSS 2.1 §10.4/§10.7): `min` wins when the two conflict.
pub open spec fn clamp_spec(v: i32, min: i32, max: Option<Au>) -> i32 {
    let v1 = if v >= min { v } else { min };
    match max {
        Some(m) => if m.0 < min { v1 } else if v1 <= m.0 { v1 } else { m.0 },
        None => v1,
    }
}

/// Clamps `v` to `[min, max]`; a `max` below `min` is treated as if it were `min`.
pub fn clamp_au(v: Au, min: Au, max: Option<Au>) -> (r: Au)
    ensures
        r.0 == clamp_spec(v.0, min.0, max),
        r.0 >= min.0,
{
    let v1 = if v.0 >= min.0 { v } else { min };
    match max {
        Some(m) => {
            if m.0 < min.0 {
                v1
            } else if v1.0 <= m.0 {
                v1
            } else {
                m
            }
        },
        None => v1,
    }
}

/// `rect` inset by `sides` on every edge: the origin moves in by the left and top sides,
/// and the size shrinks by both sides of each axis, never below zero.
pub open spec fn inset_spec(rect: Rect, sides: Sides<Au>) -> Rect {
    let w = sat_i32(sat_i32(rect.size.w.0 - sides.left.0) - sides.right.0);
    let h = sat_i32(sat_i32(rect.size.h.0 - sides.top.0) - sides.bottom.0);
    Rect {
        origin: Point {
            x: Au(sat_i32(rect.origin.x.0 + sides.left.0)),
            y: Au(sat_i32(rect.origin.y.0 + sides.top.0)),
        },
        size: Size { w: Au(if w >= 0 { w } else { 0 }), h: Au(if h >= 0 { h } else { 0 }) },
    }
}

/// Insets `rect` by `sides` (border box to padding box to content box), clamping the size
/// at zero rather than going negative.
pub fn inset(rect: Rect, sides: Sides<Au>) -> (r: Rect)
    ensures
        r == inset_spec(rect, sides),
        r.size.w.0 >= 0 && r.size.h.0 >= 0,
{
    let w = rect.size.w.saturating_sub(sides.left).saturating_sub(sides.right);
    let h = rect.size.h.saturating_sub(sides.top).saturating_sub(sides.bottom);
    Rect {
        origin: Point {
            x: rect.origin.x.saturating_add(sides.left),
            y: rect.origin.y.saturating_add(sides.top),
        },
        size: Size { w: if w.0 >= 0 { w } else { Au::zero() }, h: if h.0 >= 0 { h } else { Au::zero() } },
    }
}

/// Shifts `r`'s origin by `(dx, dy)`, saturating; its size is unchanged.
pub fn shift_rect(r: &mut Rect, dx: Au, dy: Au)
    ensures
        final(r).origin.x.0 == sat_i32(old(r).origin.x.0 + dx.0),
        final(r).origin.y.0 == sat_i32(old(r).origin.y.0 + dy.0),
        final(r).size == old(r).size,
{
    r.origin.x = r.origin.x.saturating_add(dx);
    r.origin.y = r.origin.y.saturating_add(dy);
}

/// A box's content-box origin, given its border-box origin and resolved box model: moved
/// in by the left and top padding and border.
pub fn content_origin_of(border_box_origin: Point, model: &BoxModel) -> (r: Point)
    ensures
        r.x.0 == sat_i32(sat_i32(border_box_origin.x.0 + model.padding.left.0) + model.border.left.0),
        r.y.0 == sat_i32(sat_i32(border_box_origin.y.0 + model.padding.top.0) + model.border.top.0),
{
    Point {
        x: border_box_origin.x.saturating_add(model.padding.left).saturating_add(model.border.left),
        y: border_box_origin.y.saturating_add(model.padding.top).saturating_add(model.border.top),
    }
}

} // verus!
