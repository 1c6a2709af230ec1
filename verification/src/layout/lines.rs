//! Turning shaped line boxes into fragments: one `Line` fragment per line box, stacked from
//! the content box's top, as wide as the content box (CSS 2.1 §9.4.2: `text-align` moves
//! the content within a line box, never the box), each with one `Text` child per group of
//! consecutive runs that came from the same inline item. Runs arrive relative to the
//! content box's left edge and the line's baseline and leave in absolute coordinates.
use vstd::prelude::*;

use crate::dom::document::NodeId;
use crate::layout::au::{sat_i32, Au};
use crate::layout::fragment::{saturated_index, Fragment, FragmentId, FragmentKind, StyleId};
use crate::layout::geom::{Point, Rect, Size};
use crate::layout::inline::{ends_group, group_runs, groups_upto, item_at, runs_width, runs_width_spec, RunGroup};
use crate::layout::text::{Glyph, GlyphRun};

verus! {

/// One line box as the shaper hands it over: its height, its baseline's offset from its
/// top, its glyph runs in visual order (origins relative to the content box's left edge and
/// to the baseline), and for each run the index of the inline item it came from.
#[derive(Debug, Clone)]
pub struct LineBox {
    /// The line's height.
    pub height: Au,
    /// The baseline's distance from the line's top.
    pub baseline: Au,
    /// The glyph runs, in visual order.
    pub runs: Vec<GlyphRun>,
    /// `run_items[i]` is the inline item run `i` came from.
    pub run_items: Vec<usize>,
}

/// What an inline item gives the fragment its runs become: a text item its node and style;
/// a forced break neither.
#[derive(Debug, Clone, Copy, PartialEq, Eq, Structural)]
pub enum InlineItemInfo {
    /// A run of text from one text node.
    Text {
        /// The text node.
        node: NodeId,
        /// The style the text was shaped with.
        style: StyleId,
    },
    /// A forced line break.
    Break,
}

/// The run groups of a line: consecutive runs from one item.
pub open spec fn line_groups(line: LineBox) -> Seq<RunGroup> {
    groups_upto(line.run_items@, line.runs@.len() as int)
}

/// How many fragments the first `k` lines make: each line's text fragments and the line's
/// own.
pub open spec fn frags_before(lines: Seq<LineBox>, k: int) -> int
    decreases k,
{
    if k <= 0 {
        0
    } else {
        frags_before(lines, k - 1) + line_groups(lines[k - 1]).len() + 1
    }
}

/// The saturating sum of the first `k` lines' heights.
pub open spec fn heights_before(lines: Seq<LineBox>, k: int) -> i32
    decreases k,
{
    if k <= 0 {
        0
    } else {
        sat_i32(heights_before(lines, k - 1) + lines[k - 1].height.0)
    }
}

/// The node of item `i`: a text item's node; none for a break or an unknown item.
pub open spec fn item_node(items: Seq<InlineItemInfo>, i: int) -> Option<NodeId> {
    if 0 <= i < items.len() && items[i] is Text {
        Some(items[i]->node)
    } else {
        None
    }
}

/// The style of item `i`: a text item's style; the container's for anything else.
pub open spec fn item_style(items: Seq<InlineItemInfo>, i: int, container: StyleId) -> StyleId {
    if 0 <= i < items.len() && items[i] is Text {
        items[i]->style
    } else {
        container
    }
}

/// `r` is `src` moved to absolute coordinates: its origin shifted right by `x` and down to
/// the baseline at `baseline_y`, everything else as it was.
pub open spec fn run_placed(r: GlyphRun, src: GlyphRun, x: i32, baseline_y: i32) -> bool {
    &&& r.font == src.font && r.size == src.size && r.color == src.color
    &&& r.glyphs@ == src.glyphs@
    &&& r.origin == Point {
        x: Au(sat_i32(x + src.origin.x.0)),
        y: Au(sat_i32(baseline_y + src.origin.y.0)),
    }
}

/// `f` is the `Text` fragment of group `g` of `line`, whose top is at `top`: the group's
/// runs placed on the line's baseline, in a rect from the first run's origin, as wide as the
/// runs and as tall as the line.
pub open spec fn text_fragment_ok(
    f: Fragment,
    line: LineBox,
    g: RunGroup,
    items: Seq<InlineItemInfo>,
    origin: Point,
    top: i32,
    container: StyleId,
) -> bool {
    let baseline_y = sat_i32(top + line.baseline.0);
    let runs = f.kind->runs@;
    let rect = Rect {
        origin: Point { x: runs[0].origin.x, y: Au(top) },
        size: Size { w: Au(runs_width_spec(runs)), h: line.height },
    };
    &&& f.node == item_node(items, g.item as int)
    &&& f.style == item_style(items, g.item as int, container)
    &&& f.kind is Text
    &&& runs.len() == g.end - g.start + 1
    &&& forall|i: int|
        0 <= i < runs.len() ==> run_placed(#[trigger] runs[i], line.runs@[g.start + i], origin.x.0, baseline_y)
    &&& f.border_box == rect && f.padding_box == rect && f.content_box == rect
    &&& f.children@.len() == 0
}

/// `f` is the `Line` fragment of `line`, whose top is at `top`: the content box's width,
/// the line's height, the container's style, and as children the `n` fragments from index
/// `first` on.
pub open spec fn line_fragment_ok(
    f: Fragment,
    line: LineBox,
    origin: Point,
    top: i32,
    width: Au,
    container: StyleId,
    first: int,
    n: int,
) -> bool {
    let rect = Rect { origin: Point { x: origin.x, y: Au(top) }, size: Size { w: width, h: line.height } };
    &&& f.node is None && f.kind is Line && f.style == container
    &&& f.border_box == rect && f.padding_box == rect && f.content_box == rect
    &&& f.children@.len() == n
    &&& forall|j: int| 0 <= j < n ==> (#[trigger] f.children@[j]).0 == saturated_index(first + j)
}

/// Line `l` of `lines` is in `frags`, its fragments from index `base + frags_before(l)` on:
/// first its text fragments, one per group, then its line fragment, whose id is `id`.
pub open spec fn line_done(
    frags: Seq<Fragment>,
    base: int,
    lines: Seq<LineBox>,
    l: int,
    items: Seq<InlineItemInfo>,
    origin: Point,
    width: Au,
    container: StyleId,
    id: FragmentId,
) -> bool {
    let top = sat_i32(origin.y.0 + heights_before(lines, l));
    let first = base + frags_before(lines, l);
    let gs = line_groups(lines[l]);
    &&& first + gs.len() < frags.len()
    &&& forall|i: int|
        first <= i < first + gs.len() ==> text_fragment_ok(
            #[trigger] frags[i],
            lines[l],
            gs[i - first],
            items,
            origin,
            top,
            container,
        )
    &&& line_fragment_ok(frags[first + gs.len()], lines[l], origin, top, width, container, first, gs.len() as int)
    &&& id.0 == saturated_index(first + gs.len())
}

proof fn lemma_group_bounds(items: Seq<usize>, k: int)
    requires
        0 <= k <= usize::MAX,
    ensures
        ({
            let g = groups_upto(items, k);
            &&& forall|j: int| 0 <= j < g.len() ==> #[trigger] g[j].start <= g[j].end && g[j].end < k
            &&& g.len() > 0 ==> g.last().end < k
        }),
    decreases k,
{
    if k > 0 {
        lemma_group_bounds(items, k - 1);
        let g0 = groups_upto(items, k - 1);
        let g = groups_upto(items, k);
        let start = if g0.len() == 0 { 0 } else { g0.last().end + 1 };
        if ends_group(items, k - 1) {
            let ng = RunGroup { item: item_at(items, k - 1), start: start as usize, end: (k - 1) as usize };
            assert(g == g0.push(ng));
            assert(start <= k - 1);
            assert forall|j: int| 0 <= j < g.len() implies #[trigger] g[j].start <= g[j].end && g[j].end < k by {
                if j < g0.len() {
                    assert(g[j] == g0[j]);
                }
            }
        } else {
            assert(g == g0);
        }
    }
}

proof fn lemma_frags_before_mono(lines: Seq<LineBox>, a: int, b: int)
    requires
        0 <= a <= b,
    ensures
        frags_before(lines, a) <= frags_before(lines, b),
        frags_before(lines, a) >= 0,
    decreases b,
{
    if b > a {
        lemma_frags_before_mono(lines, a, b - 1);
    } else if a > 0 {
        lemma_frags_before_mono(lines, 0, a - 1);
    }
}

proof fn lemma_line_done_extend(
    frags: Seq<Fragment>,
    more: Seq<Fragment>,
    base: int,
    lines: Seq<LineBox>,
    l: int,
    items: Seq<InlineItemInfo>,
    origin: Point,
    width: Au,
    container: StyleId,
    id: FragmentId,
)
    requires
        base >= 0,
        l >= 0,
        line_done(frags, base, lines, l, items, origin, width, container, id),
        more.len() >= frags.len(),
        forall|i: int| 0 <= i < frags.len() ==> #[trigger] more[i] == frags[i],
    ensures
        line_done(more, base, lines, l, items, origin, width, container, id),
{
    let top = sat_i32(origin.y.0 + heights_before(lines, l));
    let first = base + frags_before(lines, l);
    let gs = line_groups(lines[l]);
    lemma_frags_before_mono(lines, 0, l);
    assert(more[first + gs.len()] == frags[first + gs.len()]);
    assert forall|i: int| first <= i < first + gs.len() implies text_fragment_ok(
        #[trigger] more[i],
        lines[l],
        gs[i - first],
        items,
        origin,
        top,
        container,
    ) by {
        assert(more[i] == frags[i]);
    }
}

/// A copy of a run's glyphs.
fn copy_glyphs(glyphs: &Vec<Glyph>) -> (r: Vec<Glyph>)
    ensures
        r@ == glyphs@,
{
    let mut out: Vec<Glyph> = Vec::new();
    let mut i: usize = 0;
    while i < glyphs.len()
        invariant
            i <= glyphs@.len(),
            out@ == glyphs@.take(i as int),
        decreases glyphs.len() - i,
    {
        out.push(glyphs[i]);
        i += 1;
        proof {
            assert(out@ =~= glyphs@.take(i as int));
        }
    }
    proof {
        assert(glyphs@.take(i as int) =~= glyphs@);
    }
    out
}

/// `run` moved right by `x` and down to the baseline at `baseline_y`.
fn place_run(run: &GlyphRun, x: Au, baseline_y: Au) -> (r: GlyphRun)
    ensures
        run_placed(r, *run, x.0, baseline_y.0),
{
    GlyphRun {
        font: run.font,
        size: run.size,
        origin: Point { x: x.saturating_add(run.origin.x), y: baseline_y.saturating_add(run.origin.y) },
        glyphs: copy_glyphs(&run.glyphs),
        color: run.color,
    }
}

/// The node and style of item `i`.
fn item_info(items: &[InlineItemInfo], i: usize, container: StyleId) -> (r: (Option<NodeId>, StyleId))
    ensures
        r.0 == item_node(items@, i as int),
        r.1 == item_style(items@, i as int, container),
{
    if i < items.len() {
        match items[i] {
            InlineItemInfo::Text { node, style } => (Some(node), style),
            InlineItemInfo::Break => (None, container),
        }
    } else {
        (None, container)
    }
}

/// Pushes the `Text` fragment of group `g` of `line`, whose top is at `top`.
fn push_text_fragment(
    line: &LineBox,
    g: RunGroup,
    items: &[InlineItemInfo],
    origin: Point,
    top: Au,
    container: StyleId,
    fragments: &mut Vec<Fragment>,
) -> (r: FragmentId)
    requires
        g.start <= g.end < line.runs@.len(),
    ensures
        final(fragments)@.len() == old(fragments)@.len() + 1,
        forall|i: int| 0 <= i < old(fragments)@.len() ==> #[trigger] final(fragments)@[i] == old(fragments)@[i],
        text_fragment_ok(final(fragments)@.last(), *line, g, items@, origin, top.0, container),
        r.0 == saturated_index(old(fragments)@.len() as int),
{
    let (node, style) = item_info(items, g.item, container);
    let baseline_y = top.saturating_add(line.baseline);
    let mut runs: Vec<GlyphRun> = Vec::new();
    let mut k: usize = g.start;
    while k <= g.end
        invariant
            g.start <= k <= g.end + 1,
            g.end < line.runs.len(),
            baseline_y.0 == sat_i32(top.0 + line.baseline.0),
            runs@.len() == k - g.start,
            forall|i: int|
                0 <= i < runs@.len() ==> run_placed(#[trigger] runs@[i], line.runs@[g.start + i], origin.x.0, baseline_y.0),
        decreases g.end + 1 - k,
    {
        let placed = place_run(&line.runs[k], origin.x, baseline_y);
        runs.push(placed);
        k += 1;
    }
    let width = runs_width(runs.as_slice());
    let rect = Rect { origin: Point { x: runs[0].origin.x, y: top }, size: Size { w: width, h: line.height } };
    let ghost before = fragments@;
    let id = FragmentId::from_index(fragments.len());
    fragments.push(
        Fragment {
            node,
            kind: FragmentKind::Text { runs },
            border_box: rect,
            padding_box: rect,
            content_box: rect,
            style,
            children: Vec::new(),
        },
    );
    proof {
        assert(fragments@.last() == fragments@[before.len() as int]);
    }
    id
}

/// Turns the shaper's line boxes into fragments appended to `fragments`: for each line, in
/// order, one `Text` fragment per group of consecutive runs from one inline item (the
/// item's node and style; none and `container_style` for a run of no text item), then the
/// `Line` fragment holding them. Line `k` starts at `content_origin.y` plus the saturating
/// sum of the earlier lines' heights, is `content_width` wide and its line box's height
/// tall; each run moves right by `content_origin.x` and down to the line's baseline.
/// Returns the line fragments' ids and the saturating sum of all line heights.
#[verifier::spinoff_prover]
#[verifier::rlimit(40)]
pub fn build_line_fragments(
    lines: &[LineBox],
    items: &[InlineItemInfo],
    content_origin: Point,
    content_width: Au,
    container_style: StyleId,
    fragments: &mut Vec<Fragment>,
) -> (r: (Vec<FragmentId>, Au))
    ensures
        final(fragments)@.len() == old(fragments)@.len() + frags_before(lines@, lines@.len() as int),
        forall|i: int| 0 <= i < old(fragments)@.len() ==> #[trigger] final(fragments)@[i] == old(fragments)@[i],
        r.0@.len() == lines@.len(),
        forall|l: int|
            0 <= l < lines@.len() ==> line_done(
                final(fragments)@,
                old(fragments)@.len() as int,
                lines@,
                l,
                items@,
                content_origin,
                content_width,
                container_style,
                #[trigger] r.0@[l],
            ),
        r.1.0 == heights_before(lines@, lines@.len() as int),
{
    let ghost base = fragments@.len() as int;
    let ghost start = fragments@;
    let mut line_ids: Vec<FragmentId> = Vec::new();
    let mut cursor_y = Au::zero();
    let mut l: usize = 0;
    while l < lines.len()
        invariant
            l <= lines@.len(),
            base == start.len(),
            fragments@.len() == base + frags_before(lines@, l as int),
            forall|i: int| 0 <= i < base ==> #[trigger] fragments@[i] == start[i],
            line_ids@.len() == l,
            forall|k: int|
                0 <= k < l ==> line_done(
                    fragments@,
                    base,
                    lines@,
                    k,
                    items@,
                    content_origin,
                    content_width,
                    container_style,
                    #[trigger] line_ids@[k],
                ),
            cursor_y.0 == heights_before(lines@, l as int),
        decreases lines.len() - l,
    {
        let line = &lines[l];
        let top = content_origin.y.saturating_add(cursor_y);
        let groups = group_runs(line.runs.len(), &line.run_items);
        let ghost gs = groups@;
        let ghost f_line = fragments@;
        let ghost first = fragments@.len() as int;
        proof {
            lemma_group_bounds(line.run_items@, line.runs@.len() as int);
            assert(gs == line_groups(lines@[l as int]));
        }
        let mut children: Vec<FragmentId> = Vec::new();
        let mut j: usize = 0;
        while j < groups.len()
            invariant
                j <= gs.len(),
                groups@ == gs,
                gs == line_groups(lines@[l as int]),
                *line == lines@[l as int],
                forall|t: int| 0 <= t < gs.len() ==> #[trigger] gs[t].start <= gs[t].end && gs[t].end < line.runs@.len(),
                first == f_line.len(),
                fragments@.len() == first + j,
                forall|i: int| 0 <= i < first ==> #[trigger] fragments@[i] == f_line[i],
                children@.len() == j,
                forall|t: int| 0 <= t < j ==> (#[trigger] children@[t]).0 == saturated_index(first + t),
                forall|i: int|
                    first <= i < first + j ==> text_fragment_ok(
                        #[trigger] fragments@[i],
                        *line,
                        gs[i - first],
                        items@,
                        content_origin,
                        top.0,
                        container_style,
                    ),
            decreases groups.len() - j,
        {
            let ghost f_before = fragments@;
            let g = groups[j];
            assert(gs[j as int].start <= gs[j as int].end);
            let id = push_text_fragment(line, g, items, content_origin, top, container_style, fragments);
            children.push(id);
            j += 1;
            proof {
                assert forall|i: int|
                    first <= i < first + j implies text_fragment_ok(
                    #[trigger] fragments@[i],
                    *line,
                    gs[i - first],
                    items@,
                    content_origin,
                    top.0,
                    container_style,
                ) by {
                    if i < first + j - 1 {
                        assert(fragments@[i] == f_before[i]);
                    } else {
                        assert(fragments@[i] == fragments@.last());
                    }
                }
            }
        }
        let rect = Rect { origin: Point { x: content_origin.x, y: top }, size: Size { w: content_width, h: line.height } };
        let ghost f_texts = fragments@;
        let id = FragmentId::from_index(fragments.len());
        fragments.push(
            Fragment {
                node: None,
                kind: FragmentKind::Line,
                border_box: rect,
                padding_box: rect,
                content_box: rect,
                style: container_style,
                children,
            },
        );
        line_ids.push(id);
        proof {
            let fr = fragments@;
            assert forall|i: int| 0 <= i < f_texts.len() implies #[trigger] fr[i] == f_texts[i] by {}
            assert(line_done(fr, base, lines@, l as int, items@, content_origin, content_width, container_style, id)) by {
                assert forall|i: int|
                    first <= i < first + gs.len() implies text_fragment_ok(
                    #[trigger] fr[i],
                    lines@[l as int],
                    gs[i - first],
                    items@,
                    content_origin,
                    top.0,
                    container_style,
                ) by {
                    assert(fr[i] == f_texts[i]);
                }
            }
            assert forall|k: int|
                0 <= k < l + 1 implies line_done(
                fr,
                base,
                lines@,
                k,
                items@,
                content_origin,
                content_width,
                container_style,
                #[trigger] line_ids@[k],
            ) by {
                if k < l {
                    assert forall|i: int| 0 <= i < f_line.len() implies #[trigger] fr[i] == f_line[i] by {
                        assert(fr[i] == f_texts[i]);
                    }
                    lemma_line_done_extend(f_line, fr, base, lines@, k, items@, content_origin, content_width, container_style, line_ids@[k]);
                }
            }
            assert forall|i: int| 0 <= i < base implies #[trigger] fr[i] == start[i] by {
                lemma_frags_before_mono(lines@, 0, l as int);
                assert(fr[i] == f_texts[i]);
                assert(f_texts[i] == f_line[i]);
            }
        }
        cursor_y = cursor_y.saturating_add(line.height);
        l += 1;
    }
    (line_ids, cursor_y)
}

} // verus!
