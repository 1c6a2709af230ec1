//! The block formatting context (CSS 2.1 §10 box dimensions, §8.3.1 margin collapsing):
//! [`layout_boxes`] walks a [`BoxTree`] with one explicit stack of frames, never
//! recursing, and produces an absolutely positioned fragment tree.
//!
//! A block whose children are block-level is a *container*: it gets a frame, and its
//! children are placed one after another below each other, adjoining margins collapsing
//! (largest positive plus most negative, through whole first- and last-child chains). A
//! block whose children are inline-level, or which has none, is a *leaf*, laid out in one
//! step: its inline content is split into line groups at forced breaks, one `Line`
//! fragment per group, `line-height` tall unless the group holds no text. A box's content
//! height is its definite height, else what its content adds up to (saturating), clamped
//! to `[min-height, max-height]`; a relatively positioned box moves with its whole subtree.
//! The root's margins never collapse with its children's.
use vstd::prelude::*;

use crate::dom::document::NodeId;
use crate::layout::au::{sat_i32, Au};
use crate::layout::box_model::{clamp_au, clamp_spec, collapse_margins, collapse_spec, content_origin_of, inset, inset_spec, shift_rect, BoxModel};
use crate::layout::box_tree::{
    box_valid, effective_bottom_spec, effective_margin_bottom, effective_margin_top, effective_top_spec,
    first_block_child_spec, is_anonymous, is_block_container, BoxId, BoxKind, BoxTree, LayoutBox,
};
use crate::layout::error::LayoutError;
use crate::layout::fragment::{saturated_index, Fragment, FragmentId, FragmentKind, StyleId, Viewport};
use crate::layout::geom::{Point, Rect, Sides, Size};
use crate::layout::resolve::{model_spec, offset_spec, resolve_box_model, resolve_offset};
use crate::layout::walk_bound::{frames_counted, frames_pot, lemma_advance_pot, lemma_finalize_pot, lemma_walk_start, walk_finishes};

verus! {

// ---------------------------------------------------------------------------------------
// Fragment geometry
// ---------------------------------------------------------------------------------------

/// The saturating sum `a + b + c + d + e`, added left to right.
pub open spec fn sum5(a: i32, b: i32, c: i32, d: i32, e: i32) -> i32 {
    sat_i32(sat_i32(sat_i32(sat_i32(a + b) + c) + d) + e)
}

/// The border box of a box at `origin` with model `m` and content height `h`: its size is
/// the content size plus padding and border on each axis, saturating.
pub open spec fn border_box_spec(origin: Point, m: BoxModel, h: i32) -> Rect {
    Rect {
        origin,
        size: Size {
            w: Au(sum5(m.content_width.0, m.padding.left.0, m.padding.right.0, m.border.left.0, m.border.right.0)),
            h: Au(sum5(h, m.padding.top.0, m.padding.bottom.0, m.border.top.0, m.border.bottom.0)),
        },
    }
}

/// Whether `f` is the fragment of a block box at `origin` with model `m` and content height
/// `h`: its border box as [`border_box_spec`] says, its padding box that inset by the
/// border, its content box that inset by the padding.
pub open spec fn block_rects(f: Fragment, origin: Point, m: BoxModel, h: i32) -> bool {
    &&& f.border_box == border_box_spec(origin, m, h)
    &&& f.padding_box == inset_spec(f.border_box, m.border)
    &&& f.content_box == inset_spec(f.padding_box, m.padding)
}

/// `r` moved by `(dx, dy)`, saturating.
pub open spec fn shifted_rect(r: Rect, dx: Au, dy: Au) -> Rect {
    Rect { origin: Point { x: Au(sat_i32(r.origin.x.0 + dx.0)), y: Au(sat_i32(r.origin.y.0 + dy.0)) }, size: r.size }
}

/// `f` with its three rects moved by `(dx, dy)`.
pub open spec fn shifted_fragment(f: Fragment, dx: Au, dy: Au) -> Fragment {
    Fragment {
        border_box: shifted_rect(f.border_box, dx, dy),
        padding_box: shifted_rect(f.padding_box, dx, dy),
        content_box: shifted_rect(f.content_box, dx, dy),
        ..f
    }
}

/// The fragments from `start` on moved by `(dx, dy)`; those before unchanged.
pub open spec fn shifted_from(fs: Seq<Fragment>, start: int, dx: Au, dy: Au) -> Seq<Fragment> {
    Seq::new(fs.len(), |i: int| if i >= start { shifted_fragment(fs[i], dx, dy) } else { fs[i] })
}

/// Moves every fragment from position `start` on by `(dx, dy)`: a relatively positioned
/// box's fragment and its whole subtree, which were appended after it started.
pub fn shift_fragments(fragments: &mut Vec<Fragment>, start: usize, dx: Au, dy: Au)
    ensures
        final(fragments)@ == shifted_from(old(fragments)@, start as int, dx, dy),
{
    let ghost old_fs = fragments@;
    let mut i = start;
    while i < fragments.len()
        invariant
            fragments@.len() == old_fs.len(),
            start <= i || i == start,
            forall|k: int|
                0 <= k < old_fs.len() ==> #[trigger] fragments@[k] == (if start <= k < i {
                    shifted_fragment(old_fs[k], dx, dy)
                } else {
                    old_fs[k]
                }),
        decreases fragments.len() - i,
    {
        let ghost before = fragments@;
        shift_rect(&mut fragments[i].border_box, dx, dy);
        shift_rect(&mut fragments[i].padding_box, dx, dy);
        shift_rect(&mut fragments[i].content_box, dx, dy);
        proof {
            assert(fragments@[i as int] == shifted_fragment(old_fs[i as int], dx, dy));
            assert forall|k: int| 0 <= k < old_fs.len() && k != i implies #[trigger] fragments@[k] == before[k] by {}
        }
        i += 1;
    }
    proof {
        assert(fragments@ =~= shifted_from(old_fs, start as int, dx, dy));
    }
}

/// Appends `f` and returns its id.
fn push_fragment(fragments: &mut Vec<Fragment>, f: Fragment) -> (r: FragmentId)
    ensures
        final(fragments)@ == old(fragments)@.push(f),
        r.0 == saturated_index(old(fragments)@.len() as int),
{
    let id = FragmentId::from_index(fragments.len());
    fragments.push(f);
    id
}

/// The id that stands for the initial style, outside any style table: what a fragment gets
/// when the box that should have given it a style does not exist.
pub fn initial_style_id() -> (r: StyleId)
    ensures
        r.0 == u32::MAX,
{
    StyleId(u32::MAX)
}

// ---------------------------------------------------------------------------------------
// A leaf's inline content
// ---------------------------------------------------------------------------------------

/// One token of a leaf's flattened inline content.
#[derive(Debug, Clone, Copy, PartialEq, Eq, Structural)]
pub enum InlineToken {
    /// One text box.
    Text(BoxId),
    /// A forced line break: it ends the current line group.
    Break,
}

/// `s` in reverse order.
pub open spec fn reversed(s: Seq<BoxId>) -> Seq<BoxId> {
    Seq::new(s.len(), |i: int| s[s.len() - 1 - i])
}

/// The walk that flattens inline content: pop a box; a text box or a break becomes a
/// token, an inline box pushes its children (first on top), a block-level box is skipped,
/// as is an unknown id. At most `remaining` boxes are popped.
pub open spec fn flatten_walk(boxes: Seq<LayoutBox>, stack: Seq<BoxId>, remaining: nat, out: Seq<InlineToken>) -> Seq<InlineToken>
    decreases remaining,
{
    if stack.len() == 0 || remaining == 0 {
        out
    } else {
        let id = stack.last();
        let rest = stack.drop_last();
        let rem = (remaining - 1) as nat;
        if !box_valid(boxes, id) {
            flatten_walk(boxes, rest, rem, out)
        } else {
            match boxes[id.0 as int].kind {
                BoxKind::InlineText => flatten_walk(boxes, rest, rem, out.push(InlineToken::Text(id))),
                BoxKind::LineBreak => flatten_walk(boxes, rest, rem, out.push(InlineToken::Break)),
                BoxKind::Inline | BoxKind::AnonymousInline => flatten_walk(
                    boxes,
                    rest + reversed(boxes[id.0 as int].children@),
                    rem,
                    out,
                ),
                _ => flatten_walk(boxes, rest, rem, out),
            }
        }
    }
}

/// The text boxes and breaks of `children`' inline content, in document order.
pub open spec fn flatten_spec(boxes: Seq<LayoutBox>, children: Seq<BoxId>) -> Seq<InlineToken> {
    flatten_walk(boxes, reversed(children), boxes.len(), Seq::empty())
}

/// Pushes `ids` onto `stack` last first, so that the first is popped first.
fn push_reversed(stack: &mut Vec<BoxId>, ids: &Vec<BoxId>)
    ensures
        final(stack)@ == old(stack)@ + reversed(ids@),
{
    let ghost start = stack@;
    let mut i = ids.len();
    while i > 0
        invariant
            i <= ids@.len(),
            stack@ == start + reversed(ids@).take(ids@.len() - i),
        decreases i,
    {
        i -= 1;
        stack.push(ids[i]);
        proof {
            assert(reversed(ids@).take(ids@.len() - i) =~= reversed(ids@).take(ids@.len() - i - 1).push(ids@[i as int]));
        }
    }
    proof {
        assert(reversed(ids@).take(ids@.len() as int) =~= reversed(ids@));
    }
}

/// Flattens a leaf's inline-level `children` into text and break tokens in document order,
/// walking into nested inline boxes with an explicit stack bounded by the tree's size.
pub fn flatten_inline_children(tree: &BoxTree, children: &Vec<BoxId>) -> (r: Vec<InlineToken>)
    ensures
        r@ == flatten_spec(tree.boxes@, children@),
{
    let ghost boxes = tree.boxes@;
    let mut tokens: Vec<InlineToken> = Vec::new();
    let mut stack: Vec<BoxId> = Vec::new();
    push_reversed(&mut stack, children);
    let mut remaining = tree.len();
    proof {
        assert(stack@ =~= reversed(children@));
    }
    while stack.len() > 0 && remaining > 0
        invariant
            boxes == tree.boxes@,
            flatten_walk(boxes, stack@, remaining as nat, tokens@) == flatten_spec(boxes, children@),
        decreases remaining,
    {
        let ghost sv = stack@;
        let id = stack.pop().unwrap();
        proof {
            assert(stack@ =~= sv.drop_last());
        }
        remaining -= 1;
        match tree.get(id) {
            None => {},
            Some(b) => match b.kind {
                BoxKind::InlineText => tokens.push(InlineToken::Text(id)),
                BoxKind::LineBreak => tokens.push(InlineToken::Break),
                BoxKind::Inline | BoxKind::AnonymousInline => push_reversed(&mut stack, &b.children),
                _ => {},
            },
        }
    }
    tokens
}

/// The line groups of `tokens` up to position `k`: the groups closed so far and the open one.
pub open spec fn split_upto(tokens: Seq<InlineToken>, k: int) -> (Seq<Seq<BoxId>>, Seq<BoxId>)
    decreases k,
{
    if k <= 0 {
        (Seq::empty(), Seq::empty())
    } else {
        let (g, cur) = split_upto(tokens, k - 1);
        match tokens[k - 1] {
            InlineToken::Text(id) => (g, cur.push(id)),
            InlineToken::Break => (g.push(cur), Seq::empty()),
        }
    }
}

/// `tokens` split into line groups at each break: always at least one (possibly empty).
pub open spec fn split_spec(tokens: Seq<InlineToken>) -> Seq<Seq<BoxId>> {
    let (g, cur) = split_upto(tokens, tokens.len() as int);
    g.push(cur)
}

/// The groups' id sequences.
pub open spec fn group_views(g: Seq<Vec<BoxId>>) -> Seq<Seq<BoxId>> {
    g.map_values(|v: Vec<BoxId>| v@)
}

/// Splits flattened inline content into line groups at each break.
pub fn split_into_groups(tokens: &Vec<InlineToken>) -> (r: Vec<Vec<BoxId>>)
    ensures
        group_views(r@) == split_spec(tokens@),
{
    let mut groups: Vec<Vec<BoxId>> = Vec::new();
    let mut current: Vec<BoxId> = Vec::new();
    let mut i: usize = 0;
    while i < tokens.len()
        invariant
            i <= tokens@.len(),
            (group_views(groups@), current@) == split_upto(tokens@, i as int),
        decreases tokens.len() - i,
    {
        let ghost gv = group_views(groups@);
        match tokens[i] {
            InlineToken::Text(id) => current.push(id),
            InlineToken::Break => {
                let done = current;
                current = Vec::new();
                groups.push(done);
                proof {
                    assert(group_views(groups@) =~= gv.push(done@));
                }
            },
        }
        i += 1;
    }
    let ghost gv = group_views(groups@);
    groups.push(current);
    proof {
        assert(group_views(groups@) =~= gv.push(current@));
    }
    groups
}

/// The line groups a leaf's inline content makes: the groups between breaks, except that a
/// break ending the content ends the last line and opens none (the empty group after it is
/// dropped). A break between two others still makes an empty line.
pub open spec fn line_groups_spec(tokens: Seq<InlineToken>) -> Seq<Seq<BoxId>> {
    if tokens.len() > 0 && tokens.last() is Break {
        split_spec(tokens).drop_last()
    } else {
        split_spec(tokens)
    }
}

/// The line groups of flattened inline content (see [`line_groups_spec`]).
pub fn line_groups(tokens: &Vec<InlineToken>) -> (r: Vec<Vec<BoxId>>)
    ensures
        group_views(r@) == line_groups_spec(tokens@),
{
    let mut groups = split_into_groups(tokens);
    let n = tokens.len();
    if n > 0 {
        match tokens[n - 1] {
            InlineToken::Break => {
                let ghost before = groups@;
                proof {
                    assert(group_views(before).len() > 0);
                }
                groups.pop();
                proof {
                    assert(group_views(groups@) =~= group_views(before).drop_last());
                }
            },
            InlineToken::Text(_) => {},
        }
    }
    groups
}

/// The height a line group adds: `line_height`, or 0 for a group without text.
pub open spec fn group_height(g: Seq<BoxId>, line_height: Au) -> i32 {
    if g.len() == 0 { 0 } else { line_height.0 }
}

/// The saturating sum of the first `k` groups' heights.
pub open spec fn lines_height(groups: Seq<Seq<BoxId>>, line_height: Au, k: int) -> i32
    decreases k,
{
    if k <= 0 {
        0
    } else {
        sat_i32(lines_height(groups, line_height, k - 1) + group_height(groups[k - 1], line_height))
    }
}

/// Whether `f` is the `Text` fragment of text box `id` on a line whose box starts at
/// `line_origin`: no runs yet, a zero-size rect at the line's origin, and the box's node and
/// style (none and the initial style for an unknown box).
pub open spec fn placeholder_text_ok(f: Fragment, boxes: Seq<LayoutBox>, id: BoxId, line_origin: Point) -> bool {
    let zero = Rect { origin: line_origin, size: Size { w: Au(0), h: Au(0) } };
    &&& f.kind matches FragmentKind::Text { runs } && runs@.len() == 0
    &&& f.border_box == zero && f.padding_box == zero && f.content_box == zero
    &&& f.children@.len() == 0
    &&& f.node == (if box_valid(boxes, id) { boxes[id.0 as int].node } else { None })
    &&& f.style == (if box_valid(boxes, id) { boxes[id.0 as int].style } else { StyleId(u32::MAX) })
}

/// Where the fragments of group `k` start, when the groups' fragments (each group's
/// `Text` fragments, then its `Line`) are appended from position `base`.
pub open spec fn group_start(groups: Seq<Seq<BoxId>>, base: int, k: int) -> int
    decreases k,
{
    if k <= 0 {
        base
    } else {
        group_start(groups, base, k - 1) + groups[k - 1].len() + 1
    }
}

/// Whether position `p` of `fs` holds the `Line` fragment of group `k` of `groups`, below
/// the groups before it, preceded by its group's `Text` fragments, which are its children.
pub open spec fn placeholder_line_at(
    fs: Seq<Fragment>,
    p: int,
    boxes: Seq<LayoutBox>,
    groups: Seq<Seq<BoxId>>,
    k: int,
    style: StyleId,
    line_height: Au,
    origin: Point,
    width: Au,
) -> bool {
    let f = fs[p];
    let n = groups[k].len() as int;
    let rect = Rect {
        origin: Point { x: origin.x, y: Au(sat_i32(origin.y.0 + lines_height(groups, line_height, k))) },
        size: Size { w: width, h: Au(group_height(groups[k], line_height)) },
    };
    &&& 0 <= p - n
    &&& p < fs.len()
    &&& f.kind is Line
    &&& f.node is None
    &&& f.style == style
    &&& f.border_box == rect && f.padding_box == rect && f.content_box == rect
    &&& f.children@.len() == n
    &&& forall|j: int|
        0 <= j < n ==> (#[trigger] f.children@[j]).0 == saturated_index(p - n + j) && placeholder_text_ok(
            fs[p - n + j],
            boxes,
            groups[k][j],
            rect.origin,
        )
}

/// Builds a leaf's `Line` and `Text` fragments: one `Line` per line group (a trailing break
/// adds none; see [`line_groups_spec`]), stacked from the
/// content-box top, each as wide as the content box and `line_height` tall unless its
/// group holds no text; one empty `Text` per text box, appended just before its `Line`.
/// Returns the `Line` ids and the height the lines add up to.
#[verifier::spinoff_prover]
#[verifier::rlimit(40)]
pub fn layout_inline_placeholder(
    tree: &BoxTree,
    children: &Vec<BoxId>,
    container_style: StyleId,
    line_height: Au,
    content_origin: Point,
    content_width: Au,
    fragments: &mut Vec<Fragment>,
) -> (r: (Vec<FragmentId>, Au))
    ensures
        ({
            let groups = line_groups_spec(flatten_spec(tree.boxes@, children@));
            let base = old(fragments)@.len() as int;
            &&& r.0@.len() == groups.len()
            &&& r.1.0 == lines_height(groups, line_height, groups.len() as int)
            &&& final(fragments)@.len() == group_start(groups, base, groups.len() as int)
            &&& forall|i: int| 0 <= i < base ==> #[trigger] final(fragments)@[i] == old(fragments)@[i]
            &&& forall|k: int|
                0 <= k < groups.len() ==> {
                    let p = group_start(groups, base, k) + groups[k].len();
                    &&& (#[trigger] r.0@[k]).0 == saturated_index(p)
                    &&& placeholder_line_at(
                        final(fragments)@,
                        p,
                        tree.boxes@,
                        groups,
                        k,
                        container_style,
                        line_height,
                        content_origin,
                        content_width,
                    )
                }
        }),
{
    let ghost boxes = tree.boxes@;
    let ghost old_fs = fragments@;
    let ghost base = old_fs.len() as int;
    let tokens = flatten_inline_children(tree, children);
    let groups = line_groups(&tokens);
    let ghost gs = group_views(groups@);
    let mut line_ids: Vec<FragmentId> = Vec::new();
    let mut cursor_y = Au::zero();
    let mut k: usize = 0;
    while k < groups.len()
        invariant
            boxes == tree.boxes@,
            gs == group_views(groups@),
            gs == line_groups_spec(flatten_spec(boxes, children@)),
            base == old_fs.len(),
            k <= groups@.len(),
            line_ids@.len() == k,
            cursor_y.0 == lines_height(gs, line_height, k as int),
            fragments@.len() == group_start(gs, base, k as int),
            base <= fragments@.len(),
            forall|i: int| 0 <= i < base ==> #[trigger] fragments@[i] == old_fs[i],
            forall|q: int|
                0 <= q < k ==> {
                    let p = group_start(gs, base, q) + gs[q].len();
                    &&& (#[trigger] line_ids@[q]).0 == saturated_index(p)
                    &&& placeholder_line_at(
                        fragments@,
                        p,
                        boxes,
                        gs,
                        q,
                        container_style,
                        line_height,
                        content_origin,
                        content_width,
                    )
                },
        decreases groups.len() - k,
    {
        let group = &groups[k];
        let ghost g = gs[k as int];
        let ghost start = fragments@.len() as int;
        let ghost fs0 = fragments@;
        let ghost ids0 = line_ids@;
        assert(group@ == g);
        proof {
            lemma_group_start_mono(gs, base, 0, k as int);
        }
        let h = if group.len() == 0 { Au::zero() } else { line_height };
        let line_origin = Point { x: content_origin.x, y: content_origin.y.saturating_add(cursor_y) };
        let line_rect = Rect { origin: line_origin, size: Size { w: content_width, h } };
        let mut text_children: Vec<FragmentId> = Vec::new();
        let mut j: usize = 0;
        while j < group.len()
            invariant
                group@ == g,
                boxes == tree.boxes@,
                j <= g.len(),
                start >= 0,
                fs0.len() == start,
                fragments@.len() == start + j,
                forall|i: int| 0 <= i < start ==> #[trigger] fragments@[i] == fs0[i],
                text_children@.len() == j,
                forall|m: int|
                    0 <= m < j ==> (#[trigger] text_children@[m]).0 == saturated_index(start + m)
                        && placeholder_text_ok(fragments@[start + m], boxes, g[m], line_origin),
            decreases group.len() - j,
        {
            let text_box_id = group[j];
            let (node, style) = match tree.get(text_box_id) {
                Some(b) => (b.node, b.style),
                None => (None, initial_style_id()),
            };
            let zero_rect = Rect { origin: line_origin, size: Size { w: Au(0), h: Au(0) } };
            let ghost prev = fragments@;
            let ghost prev_ids = text_children@;
            let text_id = push_fragment(
                fragments,
                Fragment {
                    node,
                    kind: FragmentKind::Text { runs: Vec::new() },
                    border_box: zero_rect,
                    padding_box: zero_rect,
                    content_box: zero_rect,
                    style,
                    children: Vec::new(),
                },
            );
            text_children.push(text_id);
            j += 1;
            proof {
                assert forall|m: int| 0 <= m < j implies (#[trigger] text_children@[m]).0 == saturated_index(start + m)
                    && placeholder_text_ok(fragments@[start + m], boxes, g[m], line_origin) by {
                    if m < j - 1 {
                        assert(fragments@[start + m] == prev[start + m]);
                        assert(text_children@[m] == prev_ids[m]);
                    } else {
                        assert(fragments@[start + m] == fragments@.last());
                    }
                }
                assert forall|i: int| 0 <= i < start implies #[trigger] fragments@[i] == fs0[i] by {
                    assert(fragments@[i] == prev[i]);
                }
            }
        }
        let ghost before_line = fragments@;
        let ghost tc = text_children@;
        let line_id = push_fragment(
            fragments,
            Fragment {
                node: None,
                kind: FragmentKind::Line,
                border_box: line_rect,
                padding_box: line_rect,
                content_box: line_rect,
                style: container_style,
                children: text_children,
            },
        );
        line_ids.push(line_id);
        cursor_y = cursor_y.saturating_add(h);
        proof {
            let p = start + g.len();
            assert(group_start(gs, base, k + 1) == p + 1);
            assert forall|i: int| 0 <= i < base implies #[trigger] fragments@[i] == old_fs[i] by {
                assert(fragments@[i] == before_line[i]);
            }
            assert forall|q: int| 0 <= q < k + 1 implies {
                let pq = group_start(gs, base, q) + gs[q].len();
                &&& (#[trigger] line_ids@[q]).0 == saturated_index(pq)
                &&& placeholder_line_at(
                    fragments@,
                    pq,
                    boxes,
                    gs,
                    q,
                    container_style,
                    line_height,
                    content_origin,
                    content_width,
                )
            } by {
                if q < k {
                    lemma_group_start_mono(gs, base, q + 1, k as int);
                    let pq = group_start(gs, base, q) + gs[q].len();
                    assert(pq < start);
                    assert(ids0[q].0 == saturated_index(pq));
                    lemma_line_at_extend(fs0, fragments@, pq, boxes, gs, q, container_style, line_height, content_origin, content_width);
                } else {
                    assert(fragments@[p].children@ == tc);
                    assert(tc.len() == g.len());
                    let f = fragments@[p];
                    assert forall|jj: int| 0 <= jj < g.len() implies (#[trigger] f.children@[jj]).0 == saturated_index(p - g.len() + jj)
                        && placeholder_text_ok(fragments@[p - g.len() + jj], boxes, gs[q][jj], line_origin) by {
                        assert(fragments@[start + jj] == before_line[start + jj]);
                    }
                }
            }
        }
        k += 1;
    }
    (line_ids, cursor_y)
}

proof fn lemma_line_at_extend(
    fs1: Seq<Fragment>,
    fs2: Seq<Fragment>,
    p: int,
    boxes: Seq<LayoutBox>,
    groups: Seq<Seq<BoxId>>,
    k: int,
    style: StyleId,
    line_height: Au,
    origin: Point,
    width: Au,
)
    requires
        fs1.len() <= fs2.len(),
        forall|i: int| 0 <= i < fs1.len() ==> #[trigger] fs2[i] == fs1[i],
        placeholder_line_at(fs1, p, boxes, groups, k, style, line_height, origin, width),
    ensures
        placeholder_line_at(fs2, p, boxes, groups, k, style, line_height, origin, width),
{
    let f = fs1[p];
    let n = groups[k].len() as int;
    assert(fs2[p] == f);
    let rect_origin = Point { x: origin.x, y: Au(sat_i32(origin.y.0 + lines_height(groups, line_height, k))) };
    assert forall|j: int| 0 <= j < n implies (#[trigger] f.children@[j]).0 == saturated_index(p - n + j)
        && placeholder_text_ok(fs2[p - n + j], boxes, groups[k][j], rect_origin) by {
        assert(fs2[p - n + j] == fs1[p - n + j]);
    }
}

proof fn lemma_group_start_mono(groups: Seq<Seq<BoxId>>, base: int, a: int, b: int)
    requires
        0 <= a <= b,
    ensures
        group_start(groups, base, a) <= group_start(groups, base, b),
    decreases b - a,
{
    if a < b {
        lemma_group_start_mono(groups, base, a, b - 1);
    }
}

// ---------------------------------------------------------------------------------------
// Leaves
// ---------------------------------------------------------------------------------------

/// The fragments with a relatively positioned box's offset applied from `start` on (its
/// own fragment and its subtree's), or unchanged when the box is not relatively positioned.
pub open spec fn relative_shift(fs: Seq<Fragment>, start: int, offset: Option<Sides<Option<Au>>>) -> Seq<Fragment> {
    match offset {
        None => fs,
        Some(o) => shifted_from(fs, start, Au(offset_spec(o.left, o.right)), Au(offset_spec(o.top, o.bottom))),
    }
}

/// A relative offset moves a box's whole subtree rigidly and nothing else: the fragments
/// before `start` stay as they are, and each from `start` on keeps its size, kind, node,
/// style and children while all of its rects move by one and the same `(dx, dy)`.
pub proof fn lemma_relative_shift_is_rigid(fs: Seq<Fragment>, start: int, offset: Option<Sides<Option<Au>>>)
    ensures
        ({
            let r = relative_shift(fs, start, offset);
            let (dx, dy) = match offset {
                Some(o) => (offset_spec(o.left, o.right), offset_spec(o.top, o.bottom)),
                None => (0i32, 0i32),
            };
            &&& r.len() == fs.len()
            &&& forall|i: int| 0 <= i < fs.len() && i < start ==> #[trigger] r[i] == fs[i]
            &&& forall|i: int|
                #![trigger r[i]]
                0 <= i < fs.len() && i >= start ==> {
                    &&& r[i].node == fs[i].node && r[i].style == fs[i].style && r[i].children == fs[i].children
                    &&& r[i].kind == fs[i].kind
                    &&& r[i].border_box.size == fs[i].border_box.size
                    &&& r[i].padding_box.size == fs[i].padding_box.size
                    &&& r[i].content_box.size == fs[i].content_box.size
                    &&& r[i].border_box.origin.x.0 == sat_i32(fs[i].border_box.origin.x.0 + dx)
                    &&& r[i].border_box.origin.y.0 == sat_i32(fs[i].border_box.origin.y.0 + dy)
                    &&& r[i].padding_box.origin.x.0 == sat_i32(fs[i].padding_box.origin.x.0 + dx)
                    &&& r[i].padding_box.origin.y.0 == sat_i32(fs[i].padding_box.origin.y.0 + dy)
                    &&& r[i].content_box.origin.x.0 == sat_i32(fs[i].content_box.origin.x.0 + dx)
                    &&& r[i].content_box.origin.y.0 == sat_i32(fs[i].content_box.origin.y.0 + dy)
                }
        }),
{
}

/// Applies a relative offset, if there is one, to the fragments from `start` on.
fn apply_relative(fragments: &mut Vec<Fragment>, start: usize, offset: &Option<Sides<Option<Au>>>)
    ensures
        final(fragments)@ == relative_shift(old(fragments)@, start as int, *offset),
{
    match offset {
        Some(o) => {
            let (dx, dy) = resolve_offset(*o);
            shift_fragments(fragments, start, dx, dy);
        },
        None => {},
    }
}

/// A box's content height: its definite height if it has one, else `content` clamped to
/// its `[min-height, max-height]`.
pub open spec fn content_height_spec(m: BoxModel, content: i32) -> i32 {
    match m.known_height {
        Some(h) => h.0,
        None => clamp_spec(content, m.min_height.0, m.max_height),
    }
}

/// The fragment kind of a block box.
pub open spec fn block_kind(kind: BoxKind) -> FragmentKind {
    if kind == BoxKind::AnonymousBlock { FragmentKind::AnonymousBlock } else { FragmentKind::Block }
}

/// The height a leaf's inline content adds up to: nothing for a leaf without children.
pub open spec fn leaf_inline_height(boxes: Seq<LayoutBox>, b: LayoutBox) -> i32 {
    if b.children@.len() == 0 {
        0
    } else {
        let groups = line_groups_spec(flatten_spec(boxes, b.children@));
        lines_height(groups, b.line_height, groups.len() as int)
    }
}

/// Whether `mid` is `before` plus a leaf's fragments, before any relative offset: its
/// `Line`s and `Text`s (none for a leaf without children), then its own block fragment at
/// position `p`, whose children are the `Line`s.
pub open spec fn leaf_built(before: Seq<Fragment>, mid: Seq<Fragment>, boxes: Seq<LayoutBox>, b: LayoutBox, m: BoxModel, origin: Point, p: int) -> bool {
    let base = before.len() as int;
    let groups = line_groups_spec(flatten_spec(boxes, b.children@));
    let content_origin = Point {
        x: Au(sat_i32(sat_i32(origin.x.0 + m.padding.left.0) + m.border.left.0)),
        y: Au(sat_i32(sat_i32(origin.y.0 + m.padding.top.0) + m.border.top.0)),
    };
    &&& base <= p && p < mid.len() && mid.len() == p + 1
    &&& forall|i: int| 0 <= i < base ==> #[trigger] mid[i] == before[i]
    &&& mid[p].node == b.node && mid[p].style == b.style && mid[p].kind == block_kind(b.kind)
    &&& block_rects(mid[p], origin, m, content_height_spec(m, leaf_inline_height(boxes, b)))
    &&& b.children@.len() == 0 ==> p == base && mid[p].children@.len() == 0
    &&& b.children@.len() > 0 ==> {
        &&& p == group_start(groups, base, groups.len() as int)
        &&& mid[p].children@.len() == groups.len()
        &&& forall|k: int|
            0 <= k < groups.len() ==> {
                let q = group_start(groups, base, k) + groups[k].len();
                &&& (#[trigger] mid[p].children@[k]).0 == saturated_index(q)
                &&& placeholder_line_at(mid, q, boxes, groups, k, b.style, b.line_height, content_origin, m.content_width)
            }
    }
}

/// Lays out a leaf box `b` (no children, or inline-level ones) with model `m` and border-box
/// origin `origin` in one step: its lines, then its own fragment, then its relative offset
/// over all of them. Returns its fragment's id and its border-box height.
#[verifier::spinoff_prover]
#[verifier::rlimit(40)]
pub fn layout_leaf(tree: &BoxTree, b: &LayoutBox, m: &BoxModel, origin: Point, fragments: &mut Vec<Fragment>) -> (r: (FragmentId, Au))
    ensures
        exists|mid: Seq<Fragment>, p: int|
            #[trigger] leaf_built(old(fragments)@, mid, tree.boxes@, *b, *m, origin, p)
                && final(fragments)@ == relative_shift(mid, old(fragments)@.len() as int, b.offset)
                && r.0.0 == saturated_index(p) && r.1.0 == mid[p].border_box.size.h.0,
{
    let ghost boxes = tree.boxes@;
    let ghost before = fragments@;
    let frag_start = fragments.len();
    let content_origin = content_origin_of(origin, m);
    let (line_ids, inline_height) = if b.children.len() == 0 {
        (Vec::new(), Au::zero())
    } else {
        layout_inline_placeholder(tree, &b.children, b.style, b.line_height, content_origin, m.content_width, fragments)
    };
    let ghost line_view = line_ids@;
    proof {
        if b.children@.len() > 0 {
            let groups = line_groups_spec(flatten_spec(boxes, b.children@));
            lemma_group_start_mono(groups, before.len() as int, 0, groups.len() as int);
        }
    }
    let content_height = match m.known_height {
        Some(h) => h,
        None => clamp_au(inline_height, m.min_height, m.max_height),
    };
    let w = m.content_width.saturating_add(m.padding.left).saturating_add(m.padding.right).saturating_add(
        m.border.left,
    ).saturating_add(m.border.right);
    let h = content_height.saturating_add(m.padding.top).saturating_add(m.padding.bottom).saturating_add(
        m.border.top,
    ).saturating_add(m.border.bottom);
    let border_box = Rect { origin, size: Size { w, h } };
    let padding_box = inset(border_box, m.border);
    let content_box = inset(padding_box, m.padding);
    let kind = if is_anonymous(&b.kind) { FragmentKind::AnonymousBlock } else { FragmentKind::Block };
    let ghost lines_fs = fragments@;
    let id = push_fragment(
        fragments,
        Fragment { node: b.node, kind, border_box, padding_box, content_box, style: b.style, children: line_ids },
    );
    let ghost mid = fragments@;
    let ghost p = lines_fs.len() as int;
    proof {
        let groups = line_groups_spec(flatten_spec(boxes, b.children@));
        assert forall|i: int| 0 <= i < before.len() implies #[trigger] mid[i] == before[i] by {
            assert(mid[i] == lines_fs[i]);
        }
        if b.children@.len() > 0 {
            assert forall|k: int| 0 <= k < groups.len() implies {
                let q = group_start(groups, before.len() as int, k) + groups[k].len();
                &&& (#[trigger] mid[p].children@[k]).0 == saturated_index(q)
                &&& placeholder_line_at(mid, q, boxes, groups, k, b.style, b.line_height, content_origin, m.content_width)
            } by {
                assert(mid[p].children@[k] == line_view[k]);
                let q = group_start(groups, before.len() as int, k) + groups[k].len();
                lemma_line_at_extend(lines_fs, mid, q, boxes, groups, k, b.style, b.line_height, content_origin, m.content_width);
            }
            lemma_group_start_mono(groups, before.len() as int, 0, groups.len() as int);
            assert(p == group_start(groups, before.len() as int, groups.len() as int));
            assert(mid[p].children@.len() == groups.len());
        }
        assert(block_rects(mid[p], origin, *m, content_height_spec(*m, leaf_inline_height(boxes, *b))));
        assert(leaf_built(before, mid, boxes, *b, *m, origin, p));
    }
    apply_relative(fragments, frag_start, &b.offset);
    (id, h)
}

// ---------------------------------------------------------------------------------------
// Containers and the walk
// ---------------------------------------------------------------------------------------

/// One frame of the walk's stack: a block container whose block-level children are still
/// being placed.
#[derive(Debug)]
pub struct Frame {
    /// How many fragments existed when the frame was pushed: from there on come this box's
    /// subtree's fragments, then its own.
    pub frag_start: usize,
    /// The box.
    pub box_id: BoxId,
    /// Its border-box origin, fixed when the frame is pushed.
    pub border_box_origin: Point,
    /// Its content-box origin.
    pub content_origin: Point,
    /// Its resolved box model.
    pub model: BoxModel,
    /// Whether its top margin collapses with its first child's (no top padding or border;
    /// never for the root).
    pub first_child_collapse_eligible: bool,
    /// Whether its bottom margin collapses with its last child's (`height: auto`, no bottom
    /// padding or border; never for the root).
    pub bottom_collapse_eligible: bool,
    /// The next child to place.
    pub next_child: usize,
    /// The bottom of the last placed child's border box, from the content-box top.
    pub running_content_bottom: Au,
    /// The last placed child's effective bottom margin, if any child is placed.
    pub prev_margin_bottom: Option<Au>,
    /// The placed children's fragment ids, in order.
    pub children_frag_ids: Vec<FragmentId>,
    /// This box's own effective bottom margin, handed to its parent when it is finished.
    pub effective_margin_bottom_for_parent: Au,
}

/// The gap above a child given the parent frame and the child's effective top margin: it
/// collapses with the previous sibling's effective bottom margin; a first child's margin
/// collapses into its parent's when the parent allows it, else stands.
pub open spec fn gap_before_spec(parent: Frame, eff_top: i32) -> i32 {
    match parent.prev_margin_bottom {
        Some(prev) => collapse_spec(seq![prev, Au(eff_top)]),
        None => if parent.first_child_collapse_eligible { 0 } else { eff_top },
    }
}

/// A child's border-box origin: its left margin in from the parent's content edge, below
/// the children placed so far and the gap above it.
pub open spec fn child_origin_spec(parent: Frame, m: BoxModel, eff_top: i32) -> Point {
    Point {
        x: Au(sat_i32(parent.content_origin.x.0 + m.margin_left.0)),
        y: Au(sat_i32(sat_i32(parent.content_origin.y.0 + parent.running_content_bottom.0) + gap_before_spec(parent, eff_top))),
    }
}

/// Where a child goes and what its parent needs of it later.
#[derive(Debug, Clone, Copy)]
pub struct ChildPlacement {
    /// Its box model.
    pub model: BoxModel,
    /// Its border-box origin.
    pub origin: Point,
    /// Its effective bottom margin.
    pub effective_margin_bottom: Au,
}

/// Where child `id` (box `child`) of the box on frame `parent` goes.
pub open spec fn placement_spec(boxes: Seq<LayoutBox>, id: BoxId, child: LayoutBox, parent: Frame) -> ChildPlacement {
    let m = model_spec(child.lengths, parent.model.content_width);
    ChildPlacement {
        model: m,
        origin: child_origin_spec(parent, m, effective_top_spec(boxes, id, m.margin_top, m.padding.top, m.border.top)),
        effective_margin_bottom: Au(
            effective_bottom_spec(
                boxes,
                id,
                m.margin_bottom,
                m.padding.bottom,
                m.border.bottom,
                m.known_height is None,
                m.min_height,
            ),
        ),
    }
}

/// Resolves child `id` (box `child`) of the box on frame `parent`: its box model against
/// the parent's content width, its effective margins, and its origin.
pub fn place_child(tree: &BoxTree, id: BoxId, child: &LayoutBox, parent: &Frame) -> (r: ChildPlacement)
    ensures
        r == placement_spec(tree.boxes@, id, *child, *parent),
        r.model == model_spec(child.lengths, parent.model.content_width),
        r.origin == child_origin_spec(
            *parent,
            r.model,
            effective_top_spec(tree.boxes@, id, r.model.margin_top, r.model.padding.top, r.model.border.top),
        ),
        r.effective_margin_bottom.0 == effective_bottom_spec(
            tree.boxes@,
            id,
            r.model.margin_bottom,
            r.model.padding.bottom,
            r.model.border.bottom,
            r.model.known_height is None,
            r.model.min_height,
        ),
{
    let model = resolve_box_model(&child.lengths, parent.model.content_width);
    let eff_top = effective_margin_top(tree, id, model.margin_top, model.padding.top, model.border.top);
    let eff_bottom = effective_margin_bottom(
        tree,
        id,
        model.margin_bottom,
        model.padding.bottom,
        model.border.bottom,
        model.known_height.is_none(),
        model.min_height,
    );
    let gap = match parent.prev_margin_bottom {
        Some(prev) => collapse_margins(prev, eff_top),
        None => if parent.first_child_collapse_eligible { Au::zero() } else { eff_top },
    };
    let origin = Point {
        x: parent.content_origin.x.saturating_add(model.margin_left),
        y: parent.content_origin.y.saturating_add(parent.running_content_bottom).saturating_add(gap),
    };
    ChildPlacement { model, origin, effective_margin_bottom: eff_bottom }
}

/// A new frame for a container child `id` placed at `pl`, its fragments starting at
/// `frag_start`.
pub open spec fn new_frame_ok(f: Frame, id: BoxId, pl: ChildPlacement, frag_start: int) -> bool {
    &&& f.frag_start == frag_start
    &&& f.box_id == id
    &&& f.border_box_origin == pl.origin
    &&& f.content_origin == Point {
        x: Au(sat_i32(sat_i32(pl.origin.x.0 + pl.model.padding.left.0) + pl.model.border.left.0)),
        y: Au(sat_i32(sat_i32(pl.origin.y.0 + pl.model.padding.top.0) + pl.model.border.top.0)),
    }
    &&& f.model == pl.model
    &&& f.first_child_collapse_eligible == (pl.model.padding.top.0 == 0 && pl.model.border.top.0 == 0)
    &&& f.bottom_collapse_eligible == (pl.model.known_height is None && pl.model.padding.bottom.0 == 0
        && pl.model.border.bottom.0 == 0)
    &&& f.next_child == 0
    &&& f.running_content_bottom.0 == 0
    &&& f.prev_margin_bottom is None
    &&& f.children_frag_ids@.len() == 0
    &&& f.effective_margin_bottom_for_parent == pl.effective_margin_bottom
}

/// `after` is frame `before` once a child with border box from `child_top` and
/// `child_height` tall, effective bottom margin `child_margin` and fragment `id` is placed.
pub open spec fn child_recorded(before: Frame, after: Frame, child_top: Au, child_height: Au, child_margin: Au, id: FragmentId) -> bool {
    &&& after.running_content_bottom.0 == sat_i32(sat_i32(child_top.0 - before.content_origin.y.0) + child_height.0)
    &&& after.prev_margin_bottom == Some(child_margin)
    &&& after.children_frag_ids@ == before.children_frag_ids@.push(id)
    &&& after.frag_start == before.frag_start && after.box_id == before.box_id
    &&& after.border_box_origin == before.border_box_origin && after.content_origin == before.content_origin
    &&& after.model == before.model && after.next_child == before.next_child
    &&& after.first_child_collapse_eligible == before.first_child_collapse_eligible
    &&& after.bottom_collapse_eligible == before.bottom_collapse_eligible
    &&& after.effective_margin_bottom_for_parent == before.effective_margin_bottom_for_parent
}

/// Records a finished child on the top frame of `stack`.
fn record_child(stack: &mut Vec<Frame>, child_top: Au, child_height: Au, child_margin: Au, id: FragmentId)
    requires
        old(stack)@.len() > 0,
    ensures
        final(stack)@.len() == old(stack)@.len(),
        forall|i: int| 0 <= i < old(stack)@.len() - 1 ==> #[trigger] final(stack)@[i] == old(stack)@[i],
        child_recorded(old(stack)@.last(), final(stack)@.last(), child_top, child_height, child_margin, id),
{
    let last = stack.len() - 1;
    let top = &mut stack[last];
    top.running_content_bottom = child_top.saturating_sub(top.content_origin.y).saturating_add(child_height);
    top.prev_margin_bottom = Some(child_margin);
    top.children_frag_ids.push(id);
}

/// The content height of the box on a finished frame: its definite height, else the bottom
/// of its last child plus that child's bottom margin (unless it collapses through this box),
/// saturating, clamped to `[min-height, max-height]`.
pub open spec fn frame_height_spec(f: Frame) -> i32 {
    let trailing = if f.bottom_collapse_eligible {
        0
    } else {
        match f.prev_margin_bottom {
            Some(m) => m.0,
            None => 0,
        }
    };
    content_height_spec(f.model, sat_i32(f.running_content_bottom.0 + trailing))
}

/// A finished container whose height is `auto` and whose bottom margin does not collapse
/// with its last child's (it has bottom padding or border, or is the root) keeps that
/// child's bottom margin inside: its content height is the last child's border-box bottom
/// plus the child's effective bottom margin, clamped to `[min-height, max-height]` (a
/// `max-height` below `min-height` counting as `min-height`). Where the margin does
/// collapse through, the content height stops at the child's border-box bottom.
pub proof fn lemma_auto_height_encloses_last_margin(f: Frame, mb: Au)
    requires
        f.model.known_height is None,
        f.prev_margin_bottom == Some(mb),
        i32::MIN <= f.running_content_bottom.0 + mb.0 <= i32::MAX,
    ensures
        ({
            let bottom = if f.bottom_collapse_eligible {
                f.running_content_bottom.0 as int
            } else {
                f.running_content_bottom.0 + mb.0
            };
            let min = f.model.min_height.0 as int;
            let h = frame_height_spec(f) as int;
            &&& h >= min
            &&& (min <= bottom && (f.model.max_height is Some ==> bottom <= f.model.max_height.unwrap().0)) ==> h
                == bottom
            &&& (f.model.max_height is Some && min <= f.model.max_height.unwrap().0 && f.model.max_height.unwrap().0
                < bottom) ==> h == f.model.max_height.unwrap().0
            &&& (bottom < min) ==> h == min
        }),
{
}

/// The root's frame never lets its last child's bottom margin collapse through it.
pub proof fn lemma_root_frame_encloses_margins(f: Frame, root: BoxId, m: BoxModel)
    requires
        root_frame_ok(f, root, m),
    ensures
        !f.bottom_collapse_eligible && !f.first_child_collapse_eligible,
{
}

/// The fragment of the box on finished frame `f`.
pub open spec fn frame_fragment_ok(frag: Fragment, boxes: Seq<LayoutBox>, f: Frame) -> bool {
    let b = boxes[f.box_id.0 as int];
    &&& frag.node == b.node && frag.style == b.style && frag.kind == block_kind(b.kind)
    &&& frag.children == f.children_frag_ids
    &&& block_rects(frag, f.border_box_origin, f.model, frame_height_spec(f))
}

/// Pops the top frame, appends its box's fragment, applies the box's relative offset to
/// it and its subtree, and records it on the new top frame; on the last frame, returns the
/// fragment's id instead.
pub fn finalize_top(tree: &BoxTree, stack: &mut Vec<Frame>, fragments: &mut Vec<Fragment>) -> (r: Option<FragmentId>)
    requires
        old(stack)@.len() > 0,
        box_valid(tree.boxes@, old(stack)@.last().box_id),
    ensures
        finalize_rel(tree.boxes@, old(stack)@, old(fragments)@, final(stack)@, final(fragments)@, r),
        frames_valid(tree.boxes@, old(stack)@) ==> frames_valid(tree.boxes@, final(stack)@),
{
    let ghost old_stack = stack@;
    let popped = stack.pop().unwrap();
    let b = &tree.boxes[popped.box_id.index()];
    let trailing = if popped.bottom_collapse_eligible {
        Au::zero()
    } else {
        match popped.prev_margin_bottom {
            Some(m) => m,
            None => Au::zero(),
        }
    };
    let m = popped.model;
    let content_height = match m.known_height {
        Some(h) => h,
        None => clamp_au(popped.running_content_bottom.saturating_add(trailing), m.min_height, m.max_height),
    };
    let w = m.content_width.saturating_add(m.padding.left).saturating_add(m.padding.right).saturating_add(
        m.border.left,
    ).saturating_add(m.border.right);
    let h = content_height.saturating_add(m.padding.top).saturating_add(m.padding.bottom).saturating_add(
        m.border.top,
    ).saturating_add(m.border.bottom);
    let border_box = Rect { origin: popped.border_box_origin, size: Size { w, h } };
    let padding_box = inset(border_box, m.border);
    let content_box = inset(padding_box, m.padding);
    let kind = if is_anonymous(&b.kind) { FragmentKind::AnonymousBlock } else { FragmentKind::Block };
    let ghost before = fragments@;
    let frag = Fragment {
        node: b.node,
        kind,
        border_box,
        padding_box,
        content_box,
        style: b.style,
        children: popped.children_frag_ids,
    };
    let ghost gfrag = frag;
    let id = push_fragment(fragments, frag);
    proof {
        assert(frame_fragment_ok(gfrag, tree.boxes@, old_stack.last()));
        assert(fragments@ == before.push(gfrag));
    }
    apply_relative(fragments, popped.frag_start, &b.offset);
    if stack.len() == 0 {
        return Some(id);
    }
    record_child(stack, popped.border_box_origin.y, h, popped.effective_margin_bottom_for_parent, id);
    None
}

/// The container half of placing a child: pushes a frame for it; its fragment waits until
/// its own children are placed.
fn push_container_frame(stack: &mut Vec<Frame>, frag_start: usize, id: BoxId, pl: &ChildPlacement)
    ensures
        final(stack)@.len() == old(stack)@.len() + 1,
        forall|i: int| 0 <= i < old(stack)@.len() ==> #[trigger] final(stack)@[i] == old(stack)@[i],
        new_frame_ok(final(stack)@.last(), id, *pl, frag_start as int),
{
    let content_origin = content_origin_of(pl.origin, &pl.model);
    stack.push(
        Frame {
            frag_start,
            box_id: id,
            border_box_origin: pl.origin,
            content_origin,
            model: pl.model,
            first_child_collapse_eligible: pl.model.padding.top.0 == 0 && pl.model.border.top.0 == 0,
            bottom_collapse_eligible: pl.model.known_height.is_none() && pl.model.padding.bottom.0 == 0
                && pl.model.border.bottom.0 == 0,
            next_child: 0,
            running_content_bottom: Au::zero(),
            prev_margin_bottom: None,
            children_frag_ids: Vec::new(),
            effective_margin_bottom_for_parent: pl.effective_margin_bottom,
        },
    );
}

/// Frame `f` with its next child counted as taken.
pub open spec fn bumped(f: Frame) -> Frame {
    Frame { next_child: (f.next_child + 1) as usize, ..f }
}

/// The children of the box on frame `f`.
pub open spec fn frame_children(boxes: Seq<LayoutBox>, f: Frame) -> Seq<BoxId> {
    boxes[f.box_id.0 as int].children@
}

/// Every frame names a box of the tree.
pub open spec fn frames_valid(boxes: Seq<LayoutBox>, s: Seq<Frame>) -> bool {
    forall|i: int| 0 <= i < s.len() ==> box_valid(boxes, (#[trigger] s[i]).box_id)
}

/// One advance of the walk: the top frame's next child is taken; an unknown child is
/// skipped; a container child gets a frame of its own; a leaf child is laid out at once and
/// recorded on the top frame.
pub open spec fn advance_rel(boxes: Seq<LayoutBox>, s0: Seq<Frame>, f0: Seq<Fragment>, s1: Seq<Frame>, f1: Seq<Fragment>) -> bool {
    let top = s0.last();
    let c = frame_children(boxes, top)[top.next_child as int];
    let t1 = bumped(top);
    if !box_valid(boxes, c) {
        s1 == s0.drop_last().push(t1) && f1 == f0
    } else {
        let cb = boxes[c.0 as int];
        let pl = placement_spec(boxes, c, cb, top);
        if first_block_child_spec(boxes, c) is Some {
            &&& f1 == f0
            &&& s1.len() == s0.len() + 1
            &&& s1.take(s0.len() - 1) == s0.drop_last()
            &&& s1[s0.len() - 1] == t1
            &&& new_frame_ok(s1.last(), c, pl, f0.len() as int)
        } else {
            &&& s1.len() == s0.len()
            &&& s1.drop_last() == s0.drop_last()
            &&& exists|mid: Seq<Fragment>, p: int|
                #[trigger] leaf_built(f0, mid, boxes, cb, pl.model, pl.origin, p) && f1 == relative_shift(
                    mid,
                    f0.len() as int,
                    cb.offset,
                ) && child_recorded(
                    t1,
                    s1.last(),
                    pl.origin.y,
                    Au(mid[p].border_box.size.h.0),
                    pl.effective_margin_bottom,
                    FragmentId(saturated_index(p)),
                )
        }
    }
}

/// One finish of the walk: the top frame's box gets its fragment, the box's relative
/// offset moves it and its subtree, and it is recorded on its parent's frame; the root's
/// fragment ends the walk (`done`).
pub open spec fn finalize_rel(boxes: Seq<LayoutBox>, s0: Seq<Frame>, f0: Seq<Fragment>, s1: Seq<Frame>, f1: Seq<Fragment>, done: Option<FragmentId>) -> bool {
    let f = s0.last();
    let b = boxes[f.box_id.0 as int];
    let id = FragmentId(saturated_index(f0.len() as int));
    &&& exists|frag: Fragment|
        #[trigger] frame_fragment_ok(frag, boxes, f) && f1 == relative_shift(f0.push(frag), f.frag_start as int, b.offset)
    &&& s0.len() == 1 ==> done == Some(id) && s1.len() == 0
    &&& s0.len() > 1 ==> {
        let parent = s0[s0.len() - 2];
        let bb = border_box_spec(f.border_box_origin, f.model, frame_height_spec(f));
        &&& done is None
        &&& s1.len() == s0.len() - 1
        &&& forall|i: int| 0 <= i < s0.len() - 2 ==> #[trigger] s1[i] == s0[i]
        &&& child_recorded(parent, s1.last(), f.border_box_origin.y, bb.size.h, f.effective_margin_bottom_for_parent, id)
    }
}

/// One step of the walk: advance the top frame while it has children left, else finish it.
pub open spec fn step_rel(boxes: Seq<LayoutBox>, s0: Seq<Frame>, f0: Seq<Fragment>, s1: Seq<Frame>, f1: Seq<Fragment>, done: Option<FragmentId>) -> bool {
    &&& s0.len() > 0
    &&& if s0.last().next_child < frame_children(boxes, s0.last()).len() {
        done is None && advance_rel(boxes, s0, f0, s1, f1)
    } else {
        finalize_rel(boxes, s0, f0, s1, f1, done)
    }
}

/// The walk from stack `s` and fragments `f` finishes within `n` steps with fragments `fe`
/// and root fragment `root`.
pub open spec fn walk_rel(boxes: Seq<LayoutBox>, s: Seq<Frame>, f: Seq<Fragment>, n: nat, fe: Seq<Fragment>, root: FragmentId) -> bool
    decreases n,
{
    n > 0 && exists|s1: Seq<Frame>, f1: Seq<Fragment>, d: Option<FragmentId>|
        #[trigger] step_rel(boxes, s, f, s1, f1, d) && match d {
            Some(id) => fe == f1 && root == id,
            None => walk_rel(boxes, s1, f1, (n - 1) as nat, fe, root),
        }
}

/// Takes the top frame's next child: skips it if unknown, pushes a frame for it if it is a
/// container, else lays it out as a leaf and records it.
#[verifier::spinoff_prover]
#[verifier::rlimit(80)]
pub fn advance_child(tree: &BoxTree, stack: &mut Vec<Frame>, fragments: &mut Vec<Fragment>)
    requires
        old(stack)@.len() > 0,
        frames_valid(tree.boxes@, old(stack)@),
        old(stack)@.last().next_child < frame_children(tree.boxes@, old(stack)@.last()).len(),
    ensures
        advance_rel(tree.boxes@, old(stack)@, old(fragments)@, final(stack)@, final(fragments)@),
        frames_valid(tree.boxes@, final(stack)@),
{
    let ghost s0 = stack@;
    let last = stack.len() - 1;
    let top_box = stack[last].box_id;
    let next = stack[last].next_child;
    let child_id = tree.boxes[top_box.index()].children[next];
    let n_children = tree.boxes[top_box.index()].children.len();
    assert(next < n_children);
    stack[last].next_child = next + 1;
    proof {
        assert(stack@ =~= s0.drop_last().push(bumped(s0.last())));
    }
    let child = match tree.get(child_id) {
        Some(c) => c,
        None => {
            return;
        },
    };
    let pl = place_child(tree, child_id, child, &stack[last]);
    if is_block_container(tree, child_id) {
        let ghost s_mid = stack@;
        push_container_frame(stack, fragments.len(), child_id, &pl);
        proof {
            assert(stack@.take(s0.len() - 1) =~= s0.drop_last());
            assert(stack@[s0.len() - 1] == s_mid[s0.len() - 1]);
        }
    } else {
        let ghost f0 = fragments@;
        let (id, h) = layout_leaf(tree, child, &pl.model, pl.origin, fragments);
        let ghost s_mid = stack@;
        record_child(stack, pl.origin.y, h, pl.effective_margin_bottom, id);
        proof {
            assert(stack@.drop_last() =~= s0.drop_last());
            let (mid, p) = choose|mid: Seq<Fragment>, p: int|
                #[trigger] leaf_built(f0, mid, tree.boxes@, *child, pl.model, pl.origin, p)
                    && fragments@ == relative_shift(mid, f0.len() as int, child.offset)
                    && id.0 == saturated_index(p) && h.0 == mid[p].border_box.size.h.0;
            assert(h == Au(mid[p].border_box.size.h.0));
            assert(id == FragmentId(saturated_index(p)));
            assert(leaf_built(f0, mid, tree.boxes@, *child, pl.model, pl.origin, p));
        }
    }
    proof {
        assert forall|i: int| 0 <= i < stack@.len() implies box_valid(tree.boxes@, (#[trigger] stack@[i]).box_id) by {
            if i < s0.len() - 1 {
                assert(stack@[i] == s0[i]);
            }
        }
    }
}

/// The positioned fragments of one document, their root, and the viewport.
pub struct FragmentTree {
    /// The fragments, by arena position.
    pub fragments: Vec<Fragment>,
    /// The root fragment.
    pub root: FragmentId,
    /// The viewport the tree was laid out against.
    pub viewport: Size,
}

impl FragmentTree {
    /// The fragment `id` names, if any.
    pub fn get(&self, id: FragmentId) -> (r: Option<&Fragment>)
        ensures
            r == (if (id.0 as int) < self.fragments@.len() { Some(&self.fragments@[id.0 as int]) } else { None }),
    {
        if id.index() < self.fragments.len() {
            Some(&self.fragments[id.index()])
        } else {
            None
        }
    }

    /// The number of fragments.
    pub fn len(&self) -> (r: usize)
        ensures
            r == self.fragments@.len(),
    {
        self.fragments.len()
    }

    /// Whether the tree has no fragments.
    pub fn is_empty(&self) -> (r: bool)
        ensures
            r == (self.fragments@.len() == 0),
    {
        self.fragments.len() == 0
    }
}

/// The fallback root: a childless anonymous block with zero rects and the initial style.
pub open spec fn empty_fragment_ok(f: Fragment) -> bool {
    let zero = Rect { origin: Point { x: Au(0), y: Au(0) }, size: Size { w: Au(0), h: Au(0) } };
    &&& f.node is None && f.kind is AnonymousBlock && f.style == StyleId(u32::MAX)
    &&& f.border_box == zero && f.padding_box == zero && f.content_box == zero
    &&& f.children@.len() == 0
}

/// A tree of `fragments` plus the fallback root fragment.
fn empty_tree(fragments: Vec<Fragment>, viewport: Viewport) -> (r: FragmentTree)
    ensures
        r.fragments@.len() == fragments@.len() + 1,
        r.fragments@.drop_last() == fragments@,
        empty_fragment_ok(r.fragments@.last()),
        r.root.0 == saturated_index(fragments@.len() as int),
        r.viewport == viewport.size,
{
    let mut fragments = fragments;
    let ghost before = fragments@;
    let zero = Rect { origin: Point { x: Au(0), y: Au(0) }, size: Size { w: Au(0), h: Au(0) } };
    let root = push_fragment(
        &mut fragments,
        Fragment {
            node: None,
            kind: FragmentKind::AnonymousBlock,
            border_box: zero,
            padding_box: zero,
            content_box: zero,
            style: initial_style_id(),
            children: Vec::new(),
        },
    );
    proof {
        assert(fragments@.drop_last() =~= before);
    }
    FragmentTree { fragments, root, viewport: viewport.size }
}

/// The root's frame: at its margins from the viewport origin, no child placed yet, and
/// margins that never collapse with its children's.
pub open spec fn root_frame_ok(f: Frame, root: BoxId, m: BoxModel) -> bool {
    let origin = Point { x: m.margin_left, y: m.margin_top };
    &&& f.frag_start == 0
    &&& f.box_id == root
    &&& f.border_box_origin == origin
    &&& f.content_origin == Point {
        x: Au(sat_i32(sat_i32(origin.x.0 + m.padding.left.0) + m.border.left.0)),
        y: Au(sat_i32(sat_i32(origin.y.0 + m.padding.top.0) + m.border.top.0)),
    }
    &&& f.model == m
    &&& !f.first_child_collapse_eligible && !f.bottom_collapse_eligible
    &&& f.next_child == 0
    &&& f.running_content_bottom.0 == 0
    &&& f.prev_margin_bottom is None
    &&& f.children_frag_ids@.len() == 0
    &&& f.effective_margin_bottom_for_parent.0 == 0
}


/// A walk that finishes names as its root a fragment of what it made.
pub proof fn lemma_walk_root_names_a_fragment(
    boxes: Seq<LayoutBox>,
    s: Seq<Frame>,
    f: Seq<Fragment>,
    n: nat,
    fe: Seq<Fragment>,
    root: FragmentId,
)
    requires
        walk_rel(boxes, s, f, n, fe, root),
    ensures
        (root.0 as int) < fe.len(),
    decreases n,
{
    let (s1, f1, d) = choose|s1: Seq<Frame>, f1: Seq<Fragment>, d: Option<FragmentId>|
        #[trigger] step_rel(boxes, s, f, s1, f1, d) && match d {
            Some(id) => fe == f1 && root == id,
            None => walk_rel(boxes, s1, f1, (n - 1) as nat, fe, root),
        };
    match d {
        Some(id) => {
            let top = s.last();
            let frag = choose|frag: Fragment|
                #[trigger] frame_fragment_ok(frag, boxes, top) && f1 == relative_shift(
                    f.push(frag),
                    top.frag_start as int,
                    boxes[top.box_id.0 as int].offset,
                );
            assert(f1.len() == f.len() + 1);
        },
        None => {
            lemma_walk_root_names_a_fragment(boxes, s1, f1, (n - 1) as nat, fe, root);
        },
    }
}

/// What laying out the boxes `boxes` from `root` against a viewport of size `viewport`
/// gives: the fallback root fragment for an unknown root; for a leaf root, the leaf laid
/// out at the root's margins and moved by its relative offset; for a container root, the
/// fragments of a walk from the root's frame as [`walk_rel`] relates them, or, were the
/// walk not to finish within `usize::MAX` steps, the fallback root fragment after what it
/// had made, which only a tree where the walk cannot finish can cause (see
/// [`walk_finishes`]: a container under itself, or a walk of `usize::MAX` steps).
pub open spec fn laid_out(boxes: Seq<LayoutBox>, root: BoxId, viewport: Size, r: FragmentTree) -> bool {
    &&& (r.viewport == viewport)
    &&& (!box_valid(boxes, root) ==> r.fragments@.len() == 1 && empty_fragment_ok(r.fragments@[0])
            && r.root.0 == 0)
    &&& (box_valid(boxes, root) ==> {
            let b = boxes[root.0 as int];
            let m = model_spec(b.lengths, viewport.w);
            let origin = Point { x: m.margin_left, y: m.margin_top };
            &&& first_block_child_spec(boxes, root) is None ==> exists|mid: Seq<Fragment>, p: int|
                #[trigger] leaf_built(Seq::empty(), mid, boxes, b, m, origin, p) && r.fragments@
                    == relative_shift(mid, 0, b.offset) && r.root.0 == saturated_index(p)
            &&& first_block_child_spec(boxes, root) is Some ==> exists|f0: Frame|
                #[trigger] root_frame_ok(f0, root, m) && (walk_rel(
                    boxes,
                    seq![f0],
                    Seq::empty(),
                    usize::MAX as nat,
                    r.fragments@,
                    r.root,
                ) || (!walk_finishes(boxes, root) && empty_fragment_ok(r.fragments@.last()) && r.fragments@.len() > 0
                    && r.root.0 == saturated_index(r.fragments@.len() - 1)))
        })
}

/// Lays out `tree` against `viewport` (CSS 2.1 §10, §8.3.1), producing absolutely
/// positioned fragments. The root is placed at its margins from the viewport origin. A leaf
/// root is laid out in one step; a container root is walked with the explicit stack, step
/// by step as [`step_rel`] says, until its fragment is finished. An unknown root, or a walk
/// that cannot finish (a container under itself, found when the stack outgrows the boxes,
/// or one of `usize::MAX` steps; see [`walk_finishes`]), gives the fallback root fragment.
pub fn layout_boxes(tree: &BoxTree, viewport: Viewport) -> (r: FragmentTree)
    ensures
        laid_out(tree.boxes@, tree.root, viewport.size, r),
        (r.root.0 as int) < r.fragments@.len(),
{
    let ghost boxes = tree.boxes@;
    let mut fragments: Vec<Fragment> = Vec::new();
    let b = match tree.get(tree.root) {
        Some(b) => b,
        None => {
            return empty_tree(fragments, viewport);
        },
    };
    let m = resolve_box_model(&b.lengths, viewport.size.w);
    let origin = Point { x: m.margin_left, y: m.margin_top };
    if !is_block_container(tree, tree.root) {
        let (root, _h) = layout_leaf(tree, b, &m, origin, &mut fragments);
        return FragmentTree { fragments, root, viewport: viewport.size };
    }
    let content_origin = content_origin_of(origin, &m);
    let mut stack: Vec<Frame> = Vec::new();
    stack.push(
        Frame {
            frag_start: 0,
            box_id: tree.root,
            border_box_origin: origin,
            content_origin,
            model: m,
            first_child_collapse_eligible: false,
            bottom_collapse_eligible: false,
            next_child: 0,
            running_content_bottom: Au::zero(),
            prev_margin_bottom: None,
            children_frag_ids: Vec::new(),
            effective_margin_bottom_for_parent: Au::zero(),
        },
    );
    let ghost f0 = stack@[0];
    let ghost init_s = stack@;
    let ghost init_f = fragments@;
    let budget: usize = usize::MAX;
    let mut steps = budget;
    proof {
        assert(init_s =~= seq![f0]);
        assert(init_f =~= Seq::<Fragment>::empty());
        assert(root_frame_ok(f0, tree.root, m));
    }
    let ghost wf = walk_finishes(boxes, tree.root);
    proof {
        if wf {
            lemma_walk_start(boxes, tree.root, f0);
        }
    }
    while steps > 0 && stack.len() - 1 <= tree.len()
        invariant
            boxes == tree.boxes@,
            stack@.len() > 0,
            frames_valid(boxes, stack@),
            init_s == seq![f0],
            init_f == Seq::<Fragment>::empty(),
            box_valid(boxes, tree.root),
            first_block_child_spec(boxes, tree.root) is Some,
            root_frame_ok(f0, tree.root, model_spec(boxes[tree.root.0 as int].lengths, viewport.size.w)),
            budget == usize::MAX,
            steps <= budget,
            wf == walk_finishes(boxes, tree.root),
            wf ==> frames_counted(boxes, stack@) && frames_pot(boxes, stack@) < steps && stack@.len() <= boxes.len() + 1,
            forall|fe: Seq<Fragment>, rt: FragmentId|
                #[trigger] walk_rel(boxes, stack@, fragments@, steps as nat, fe, rt) ==> walk_rel(
                    boxes,
                    init_s,
                    init_f,
                    budget as nat,
                    fe,
                    rt,
                ),
        decreases steps,
    {
        let ghost s_old = stack@;
        let ghost f_old = fragments@;
        let ghost steps_old = steps as nat;
        steps -= 1;
        let last = stack.len() - 1;
        let top_box = stack[last].box_id;
        let n_children = tree.boxes[top_box.index()].children.len();
        if stack[last].next_child < n_children {
            advance_child(tree, &mut stack, &mut fragments);
            proof {
                if wf {
                    lemma_advance_pot(boxes, s_old, f_old, stack@, fragments@);
                }
                assert(step_rel(boxes, s_old, f_old, stack@, fragments@, None));
                assert forall|fe: Seq<Fragment>, rt: FragmentId|
                    #[trigger] walk_rel(boxes, stack@, fragments@, steps as nat, fe, rt) implies walk_rel(
                        boxes,
                        init_s,
                        init_f,
                        budget as nat,
                        fe,
                        rt,
                    ) by {
                    assert(step_rel(boxes, s_old, f_old, stack@, fragments@, None));
                    assert(walk_rel(boxes, s_old, f_old, steps_old, fe, rt));
                }
            }
        } else {
            let done = finalize_top(tree, &mut stack, &mut fragments);
            match done {
                Some(root) => {
                    proof {
                        assert(step_rel(boxes, s_old, f_old, stack@, fragments@, done));
                        assert(walk_rel(boxes, s_old, f_old, steps_old, fragments@, root));
                        assert(walk_rel(boxes, init_s, init_f, budget as nat, fragments@, root));
                        lemma_walk_root_names_a_fragment(boxes, init_s, init_f, budget as nat, fragments@, root);
                        assert(root_frame_ok(
                            f0,
                            tree.root,
                            model_spec(boxes[tree.root.0 as int].lengths, viewport.size.w),
                        ) && walk_rel(
                            boxes,
                            seq![f0],
                            Seq::empty(),
                            usize::MAX as nat,
                            fragments@,
                            root,
                        ));
                    }
                    return FragmentTree { fragments, root, viewport: viewport.size };
                },
                None => {
                    proof {
                        if wf {
                            lemma_finalize_pot(boxes, s_old, f_old, stack@, fragments@);
                        }
                        assert forall|fe: Seq<Fragment>, rt: FragmentId|
                            #[trigger] walk_rel(boxes, stack@, fragments@, steps as nat, fe, rt) implies walk_rel(
                                boxes,
                                init_s,
                                init_f,
                                budget as nat,
                                fe,
                                rt,
                            ) by {
                            assert(step_rel(boxes, s_old, f_old, stack@, fragments@, None));
                            assert(walk_rel(boxes, s_old, f_old, steps_old, fe, rt));
                        }
                    }
                },
            }
        }
    }
    proof {
        assert(!wf);
    }
    let r = empty_tree(fragments, viewport);
    proof {
        assert(root_frame_ok(f0, tree.root, m) && !walk_finishes(boxes, tree.root) && empty_fragment_ok(r.fragments@.last()) && r.fragments@.len() > 0
            && r.root.0 == saturated_index(r.fragments@.len() - 1));
    }
    r
}

/// Lays out `tree` against `viewport`, as [`layout_boxes`] does. Layout has no failing
/// input: the result is always `Ok`.
pub fn layout(tree: &BoxTree, viewport: Viewport) -> (r: Result<FragmentTree, LayoutError>)
    ensures
        r is Ok,
        r matches Ok(t) && laid_out(tree.boxes@, tree.root, viewport.size, t) && (t.root.0 as int) < t.fragments@.len(),
{
    Ok(layout_boxes(tree, viewport))
}

} // verus!
