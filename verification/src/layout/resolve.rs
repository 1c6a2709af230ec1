//! Resolving one box's used width, margins and height from its lengths (CSS 2.1 §10.3.3,
//! §10.4, §10.5, §10.7). The lengths arrive already resolved against the containing block:
//! a percentage has become app units, and `None` stands for `auto` (for `height`, also for
//! a percentage of an indefinite containing block).
use vstd::prelude::*;

use crate::layout::au::{sat_i32, Au};
use crate::layout::box_model::{clamp_au, clamp_spec, BoxModel};
use crate::layout::geom::{BoxSizing, Sides};

verus! {

/// One box's sizing lengths, each resolved against its containing block; `None` is `auto`.
#[derive(Debug, Clone, Copy, PartialEq, Eq)]
pub struct UsedLengths {
    /// `width`.
    pub width: Option<Au>,
    /// `height`: `None` for `auto` and for a percentage of an indefinite containing block.
    pub height: Option<Au>,
    /// `min-width` (`auto` resolves to 0).
    pub min_width: Au,
    /// `max-width`; `None` for no upper bound.
    pub max_width: Option<Au>,
    /// `min-height` (`auto` resolves to 0).
    pub min_height: Au,
    /// `max-height`; `None` for no upper bound.
    pub max_height: Option<Au>,
    /// The four margins; `None` is `auto`.
    pub margin: Sides<Option<Au>>,
    /// The four paddings.
    pub padding: Sides<Au>,
    /// The used border widths.
    pub border: Sides<Au>,
    /// `box-sizing`.
    pub box_sizing: BoxSizing,
}

/// An optional length with `auto` taken as 0.
pub open spec fn or_zero(l: Option<Au>) -> i32 {
    match l {
        Some(a) => a.0,
        None => 0,
    }
}

/// `v`, but never below 0.
pub open spec fn non_negative(v: i32) -> i32 {
    if v >= 0 { v } else { 0 }
}

/// The saturating sum `a + b + c + d`, added left to right.
pub open spec fn sum4(a: Au, b: Au, c: Au, d: Au) -> i32 {
    sat_i32(sat_i32(sat_i32(a.0 + b.0) + c.0) + d.0)
}

/// Horizontal padding plus border.
pub open spec fn horizontal_non_content(padding: Sides<Au>, border: Sides<Au>) -> i32 {
    sum4(padding.left, padding.right, border.left, border.right)
}

/// Vertical padding plus border.
pub open spec fn vertical_non_content(padding: Sides<Au>, border: Sides<Au>) -> i32 {
    sum4(padding.top, padding.bottom, border.top, border.bottom)
}

/// The used content width, left margin and right margin of a block box in normal flow.
///
/// `width: auto` fills what the containing block leaves after both margins (an `auto`
/// margin counting as 0), padding and border, never below 0. Otherwise the specified width
/// (a border-box width minus padding and border, never below 0) is clamped to
/// `[min-width, max-width]`, and the margins absorb the rest: both `auto` split it, the
/// left getting the smaller half (both 0 if nothing is left); one `auto` takes all of it;
/// neither `auto` keeps both as specified.
pub open spec fn width_and_margins_spec(lengths: UsedLengths, cb_width: Au) -> (i32, i32, i32) {
    let nc = horizontal_non_content(lengths.padding, lengths.border);
    let ml0 = or_zero(lengths.margin.left);
    let mr0 = or_zero(lengths.margin.right);
    match lengths.width {
        None => (non_negative(sat_i32(sat_i32(sat_i32(cb_width.0 - ml0) - nc) - mr0)), ml0, mr0),
        Some(specified) => {
            let sized = match lengths.box_sizing {
                BoxSizing::ContentBox => specified.0,
                BoxSizing::BorderBox => non_negative(sat_i32(specified.0 - nc)),
            };
            let content = clamp_spec(sized, lengths.min_width.0, lengths.max_width);
            let remaining = sat_i32(cb_width.0 - sat_i32(nc + content));
            if lengths.margin.left is None && lengths.margin.right is None {
                if remaining >= 0 {
                    (content, (remaining / 2) as i32, (remaining - remaining / 2) as i32)
                } else {
                    (content, 0, 0)
                }
            } else if lengths.margin.left is None {
                (content, sat_i32(remaining - mr0), mr0)
            } else if lengths.margin.right is None {
                (content, ml0, sat_i32(remaining - ml0))
            } else {
                (content, ml0, mr0)
            }
        },
    }
}

fn or_zero_au(l: Option<Au>) -> (r: Au)
    ensures
        r.0 == or_zero(l),
{
    match l {
        Some(a) => a,
        None => Au::zero(),
    }
}

fn non_negative_au(v: Au) -> (r: Au)
    ensures
        r.0 == non_negative(v.0),
{
    if v.0 >= 0 { v } else { Au::zero() }
}

/// Resolves the used content width and the left and right margins (see
/// [`width_and_margins_spec`]). The right margin matters only to this equation.
pub fn resolve_width_and_margins(lengths: &UsedLengths, cb_width: Au) -> (r: (Au, Au, Au))
    ensures
        (r.0.0, r.1.0, r.2.0) == width_and_margins_spec(*lengths, cb_width),
{
    let padding = lengths.padding;
    let border = lengths.border;
    let non_content = padding.left.saturating_add(padding.right).saturating_add(border.left).saturating_add(
        border.right,
    );
    let margin_left0 = or_zero_au(lengths.margin.left);
    let margin_right0 = or_zero_au(lengths.margin.right);
    match lengths.width {
        None => {
            let filled = non_negative_au(
                cb_width.saturating_sub(margin_left0).saturating_sub(non_content).saturating_sub(
                    margin_right0,
                ),
            );
            (filled, margin_left0, margin_right0)
        },
        Some(specified) => {
            let sized = match lengths.box_sizing {
                BoxSizing::ContentBox => specified,
                BoxSizing::BorderBox => non_negative_au(specified.saturating_sub(non_content)),
            };
            let content_width = clamp_au(sized, lengths.min_width, lengths.max_width);
            let non_margin_total = non_content.saturating_add(content_width);
            let remaining = cb_width.saturating_sub(non_margin_total);
            let margin_left_auto = lengths.margin.left.is_none();
            let margin_right_auto = lengths.margin.right.is_none();
            if margin_left_auto && margin_right_auto {
                if remaining.0 >= 0 {
                    let half = remaining.0 / 2;
                    (content_width, Au(half), Au(remaining.0 - half))
                } else {
                    (content_width, Au::zero(), Au::zero())
                }
            } else if margin_left_auto {
                (content_width, remaining.saturating_sub(margin_right0), margin_right0)
            } else if margin_right_auto {
                (content_width, margin_left0, remaining.saturating_sub(margin_left0))
            } else {
                (content_width, margin_left0, margin_right0)
            }
        },
    }
}

/// The used content height when `height` is definite: the specified height, less vertical
/// padding and border (never below 0) for `border-box`; `None` when `height` is `auto`.
pub open spec fn height_spec(lengths: UsedLengths) -> Option<i32> {
    match lengths.height {
        None => None,
        Some(h) => Some(
            match lengths.box_sizing {
                BoxSizing::ContentBox => h.0,
                BoxSizing::BorderBox => non_negative(
                    sat_i32(h.0 - vertical_non_content(lengths.padding, lengths.border)),
                ),
            },
        ),
    }
}

/// Resolves the used content height (see [`height_spec`]), before min/max clamping.
pub fn resolve_height(lengths: &UsedLengths) -> (r: Option<Au>)
    ensures
        r matches Some(h) ==> height_spec(*lengths) == Some(h.0),
        r is None <==> height_spec(*lengths) is None,
{
    match lengths.height {
        None => None,
        Some(h) => match lengths.box_sizing {
            BoxSizing::ContentBox => Some(h),
            BoxSizing::BorderBox => {
                let padding = lengths.padding;
                let border = lengths.border;
                let non_content = padding.top.saturating_add(padding.bottom).saturating_add(
                    border.top,
                ).saturating_add(border.bottom);
                Some(non_negative_au(h.saturating_sub(non_content)))
            },
        },
    }
}

/// A box's resolved box model (see [`resolve_box_model`]).
pub open spec fn model_spec(l: UsedLengths, cb_width: Au) -> BoxModel {
    let (w, ml, _mr) = width_and_margins_spec(l, cb_width);
    BoxModel {
        margin_left: Au(ml),
        margin_top: Au(or_zero(l.margin.top)),
        margin_bottom: Au(or_zero(l.margin.bottom)),
        padding: l.padding,
        border: l.border,
        content_width: Au(w),
        min_height: l.min_height,
        max_height: l.max_height,
        known_height: match height_spec(l) {
            None => None,
            Some(h) => Some(Au(clamp_spec(h, l.min_height.0, l.max_height))),
        },
    }
}

/// Resolves a box's whole box model: width and horizontal margins as
/// [`width_and_margins_spec`], the vertical margins as given (`auto` is 0), and the definite
/// height, if any, clamped to `[min-height, max-height]`.
pub fn resolve_box_model(lengths: &UsedLengths, cb_width: Au) -> (m: BoxModel)
    ensures
        m == model_spec(*lengths, cb_width),
        ({
            let (w, ml, _mr) = width_and_margins_spec(*lengths, cb_width);
            &&& m.content_width.0 == w
            &&& m.margin_left.0 == ml
        }),
        m.margin_top.0 == or_zero(lengths.margin.top),
        m.margin_bottom.0 == or_zero(lengths.margin.bottom),
        m.padding == lengths.padding,
        m.border == lengths.border,
        m.min_height == lengths.min_height,
        m.max_height == lengths.max_height,
        match height_spec(*lengths) {
            None => m.known_height is None,
            Some(h) => m.known_height matches Some(k) && k.0 == clamp_spec(
                h,
                lengths.min_height.0,
                lengths.max_height,
            ),
        },
{
    let (content_width, margin_left, _margin_right) = resolve_width_and_margins(lengths, cb_width);
    let known_height = match resolve_height(lengths) {
        Some(h) => Some(clamp_au(h, lengths.min_height, lengths.max_height)),
        None => None,
    };
    BoxModel {
        margin_left,
        margin_top: or_zero_au(lengths.margin.top),
        margin_bottom: or_zero_au(lengths.margin.bottom),
        padding: lengths.padding,
        border: lengths.border,
        content_width,
        min_height: lengths.min_height,
        max_height: lengths.max_height,
        known_height,
    }
}

/// A relatively positioned box's offset along one axis (CSS 2.1 §9.4.3): the start side
/// (`left`/`top`) wins; with it `auto`, the box moves back by the end side; with both
/// `auto`, it stays.
pub open spec fn offset_spec(start: Option<Au>, end: Option<Au>) -> i32 {
    match start {
        Some(s) => s.0,
        None => match end {
            Some(e) => sat_i32(0 - e.0),
            None => 0,
        },
    }
}

/// The offset `(dx, dy)` of a relatively positioned box from its `top`/`right`/`bottom`/
/// `left`, each resolved against the containing block (`None` is `auto`).
pub fn resolve_offset(offset: Sides<Option<Au>>) -> (r: (Au, Au))
    ensures
        r.0.0 == offset_spec(offset.left, offset.right),
        r.1.0 == offset_spec(offset.top, offset.bottom),
{
    let dx = match offset.left {
        Some(left) => left,
        None => match offset.right {
            Some(right) => Au::zero().saturating_sub(right),
            None => Au::zero(),
        },
    };
    let dy = match offset.top {
        Some(top) => top,
        None => match offset.bottom {
            Some(bottom) => Au::zero().saturating_sub(bottom),
            None => Au::zero(),
        },
    };
    (dx, dy)
}

/// With a specified width and both horizontal margins `auto`, a box that fits is centred:
/// margins, padding, border and content add up to exactly the containing block's width,
/// and the two margins differ by at most one app unit.
pub proof fn lemma_auto_margins_center(lengths: UsedLengths, cb_width: Au)
    requires
        lengths.width is Some,
        lengths.margin.left is None,
        lengths.margin.right is None,
        lengths.padding.left.0 >= 0,
        lengths.padding.right.0 >= 0,
        lengths.border.left.0 >= 0,
        lengths.border.right.0 >= 0,
        ({
            let (w, _ml, _mr) = width_and_margins_spec(lengths, cb_width);
            w >= 0 && lengths.padding.left.0 + lengths.padding.right.0 + lengths.border.left.0
                + lengths.border.right.0 + w <= cb_width.0
        }),
    ensures
        ({
            let (w, ml, mr) = width_and_margins_spec(lengths, cb_width);
            &&& ml + mr + w + lengths.padding.left.0 + lengths.padding.right.0
                + lengths.border.left.0 + lengths.border.right.0 == cb_width.0
            &&& 0 <= mr - ml <= 1
        }),
{
    let nc = horizontal_non_content(lengths.padding, lengths.border);
    let (w, _ml, _mr) = width_and_margins_spec(lengths, cb_width);
    assert(nc == lengths.padding.left.0 + lengths.padding.right.0 + lengths.border.left.0
        + lengths.border.right.0);
    let remaining = sat_i32(cb_width.0 - sat_i32(nc + w));
    assert(remaining == cb_width.0 - nc - w);
    assert(remaining / 2 + (remaining - remaining / 2) == remaining);
}

/// With `width: auto`, a box whose margins, padding and border fit fills its containing
/// block exactly.
pub proof fn lemma_auto_width_fills(lengths: UsedLengths, cb_width: Au)
    requires
        lengths.width is None,
        lengths.padding.left.0 >= 0,
        lengths.padding.right.0 >= 0,
        lengths.border.left.0 >= 0,
        lengths.border.right.0 >= 0,
        or_zero(lengths.margin.left) >= 0,
        or_zero(lengths.margin.right) >= 0,
        or_zero(lengths.margin.left) + or_zero(lengths.margin.right) + lengths.padding.left.0
            + lengths.padding.right.0 + lengths.border.left.0 + lengths.border.right.0 <= cb_width.0,
    ensures
        ({
            let (w, ml, mr) = width_and_margins_spec(lengths, cb_width);
            ml + mr + w + lengths.padding.left.0 + lengths.padding.right.0 + lengths.border.left.0
                + lengths.border.right.0 == cb_width.0
        }),
{
}

/// A specified width is kept within `[min-width, max-width]`: the used content width is
/// never below `min-width`, never above a `max-width` that is not itself below `min-width`,
/// and, for `content-box` sizing, is the specified width exactly when that already lies
/// within the limits. The box model carries that width.
pub proof fn lemma_specified_width_within_limits(lengths: UsedLengths, cb_width: Au)
    requires
        lengths.width is Some,
    ensures
        ({
            let w = width_and_margins_spec(lengths, cb_width).0;
            let specified = match lengths.width {
                Some(sw) => sw.0,
                None => 0,
            };
            let mx = match lengths.max_width {
                Some(m) => m.0,
                None => 0,
            };
            &&& model_spec(lengths, cb_width).content_width.0 == w
            &&& w >= lengths.min_width.0
            &&& (lengths.max_width is Some && mx >= lengths.min_width.0) ==> w <= mx
            &&& (lengths.box_sizing == BoxSizing::ContentBox && lengths.min_width.0 <= specified && (lengths.max_width is Some
                ==> specified <= mx)) ==> w == specified
            &&& (lengths.box_sizing == BoxSizing::ContentBox && lengths.max_width is Some && lengths.min_width.0 <= mx
                && mx < specified) ==> w == mx
        }),
{
}

} // verus!
