//! Inline layout helpers: the text an inline item reads, grouping a line's glyph runs by the
//! inline item they came from, and measuring a group's width.
use vstd::prelude::*;

use crate::dom::document::{Document, NodeId};
use crate::dom::node::NodeKind;
use crate::layout::au::{sat_i32, Au};
use crate::layout::text::{Glyph, GlyphRun};

verus! {

/// The text of text node `node`; empty for any other node, or an unknown id.
pub fn text_of(document: &Document, node: NodeId) -> (r: &str)
    ensures
        r@ == (if document.valid(node) && document.node(node).spec_kind() is Text {
            document.node(node).spec_kind()->Text_0@
        } else {
            Seq::<char>::empty()
        }),
{
    match document.get(node) {
        Some(n) => match n.kind() {
            NodeKind::Text(text) => text.as_str(),
            _ => {
                proof {
                    reveal_strlit("");
                }
                ""
            },
        },
        None => {
            proof {
                reveal_strlit("");
            }
            ""
        },
    }
}

/// A maximal range of consecutive runs of one line that came from the same inline item:
/// runs `start..=end`.
#[derive(Debug, Clone, Copy, PartialEq, Eq, Structural)]
pub struct RunGroup {
    /// The index of the inline item the runs came from (`usize::MAX` for a run with no
    /// recorded item).
    pub item: usize,
    /// The first run of the group.
    pub start: usize,
    /// The last run of the group.
    pub end: usize,
}

/// The item run `i` came from, or `usize::MAX` if none is recorded.
pub open spec fn item_at(items: Seq<usize>, i: int) -> usize {
    if 0 <= i < items.len() {
        items[i]
    } else {
        usize::MAX
    }
}

/// Whether run `i` is the last of its group: the next run's recorded item is not the same.
pub open spec fn ends_group(items: Seq<usize>, i: int) -> bool {
    !(i + 1 < items.len() && items[i + 1] == item_at(items, i))
}

/// The groups among the first `k` runs, in order.
pub open spec fn groups_upto(items: Seq<usize>, k: int) -> Seq<RunGroup>
    decreases k,
{
    if k <= 0 {
        Seq::empty()
    } else {
        let g = groups_upto(items, k - 1);
        if ends_group(items, k - 1) {
            let start = if g.len() == 0 {
                0
            } else {
                g.last().end + 1
            };
            g.push(RunGroup { item: item_at(items, k - 1), start: start as usize, end: (k - 1) as usize })
        } else {
            g
        }
    }
}

/// Groups a line's `run_count` runs by the inline item each came from (`run_items[i]` is
/// run `i`'s item): a group ends where the next run's item differs.
pub fn group_runs(run_count: usize, run_items: &Vec<usize>) -> (r: Vec<RunGroup>)
    ensures
        r@ == groups_upto(run_items@, run_count as int),
{
    let mut groups: Vec<RunGroup> = Vec::new();
    let mut start: usize = 0;
    let mut index: usize = 0;
    while index < run_count
        invariant
            index <= run_count,
            groups@ == groups_upto(run_items@, index as int),
            start == (if groups@.len() == 0 {
                0
            } else {
                groups@.last().end + 1
            }),
            groups@.len() > 0 ==> groups@.last().end < index,
        decreases run_count - index,
    {
        let item = if index < run_items.len() {
            run_items[index]
        } else {
            usize::MAX
        };
        let next_same = index + 1 < run_items.len() && run_items[index + 1] == item;
        if !next_same {
            groups.push(RunGroup { item, start, end: index });
            start = index + 1;
        }
        index += 1;
    }
    groups
}

/// With one recorded item per run, the groups partition the runs: they are consecutive,
/// non-empty, cover every run, and every run of a group came from the group's item.
pub proof fn lemma_groups_partition(items: Seq<usize>)
    requires
        items.len() <= usize::MAX,
    ensures
        ({
            let g = groups_upto(items, items.len() as int);
            &&& items.len() > 0 ==> g.len() > 0 && g[0].start == 0 && g.last().end == items.len() - 1
            &&& forall|j: int| 0 <= j < g.len() ==> #[trigger] g[j].start <= g[j].end
            &&& forall|j: int| 0 <= j < g.len() ==> #[trigger] g[j].end < items.len()
            &&& forall|j: int| 0 < j < g.len() ==> #[trigger] g[j].start == g[j - 1].end + 1
            &&& forall|j: int, i: int|
                #![trigger g[j], items[i]]
                0 <= j < g.len() && g[j].start <= i <= g[j].end ==> g[j].item == items[i]
        }),
{
    lemma_groups_upto(items, items.len() as int);
}

proof fn lemma_groups_upto(items: Seq<usize>, k: int)
    requires
        0 <= k <= items.len(),
        items.len() <= usize::MAX,
    ensures
        ({
            let g = groups_upto(items, k);
            &&& forall|j: int| 0 <= j < g.len() ==> #[trigger] g[j].start <= g[j].end
            &&& forall|j: int| 0 <= j < g.len() ==> #[trigger] g[j].end < k
            &&& forall|j: int| 0 < j < g.len() ==> #[trigger] g[j].start == g[j - 1].end + 1
            &&& g.len() > 0 ==> g[0].start == 0 && g.last().end < k
            &&& forall|j: int, i: int|
                #![trigger g[j], items[i]]
                0 <= j < g.len() && g[j].start <= i <= g[j].end ==> g[j].item == items[i]
            &&& k > 0 && ends_group(items, k - 1) ==> g.len() > 0 && g.last().end == k - 1
            &&& k > 0 && !ends_group(items, k - 1) ==> (g.len() == 0 || g.last().end < k - 1)
            &&& forall|i: int|
                (if g.len() == 0 { 0 } else { g.last().end + 1 }) <= i < k ==> #[trigger] items[i]
                    == items[k - 1]
        }),
    decreases k,
{
    if k > 0 {
        lemma_groups_upto(items, k - 1);
        let g0 = groups_upto(items, k - 1);
        let start = if g0.len() == 0 { 0 } else { g0.last().end + 1 };
        if k - 1 > 0 {
            assert forall|i: int| start <= i < k - 1 implies #[trigger] items[i] == items[k - 1] by {
                if !ends_group(items, k - 2) {
                    assert(items[k - 2] == items[k - 1]);
                }
            }
        }
        let g = groups_upto(items, k);
        if ends_group(items, k - 1) {
            let ng = RunGroup { item: item_at(items, k - 1), start: start as usize, end: (k - 1) as usize };
            assert(g == g0.push(ng));
            assert forall|j: int| 0 <= j < g.len() implies #[trigger] g[j].start <= g[j].end && g[j].end < k by {
                if j < g0.len() {
                    assert(g[j] == g0[j]);
                }
            }
            assert forall|j: int| 0 < j < g.len() implies #[trigger] g[j].start == g[j - 1].end + 1 by {
                if j < g0.len() {
                    assert(g[j] == g0[j]);
                    assert(g[j - 1] == g0[j - 1]);
                } else {
                    assert(g[j - 1] == g0[j - 1]);
                }
            }
            assert forall|j: int, i: int|
                #![trigger g[j], items[i]]
                0 <= j < g.len() && g[j].start <= i <= g[j].end implies g[j].item == items[i] by {
                if j < g0.len() {
                    assert(g[j] == g0[j]);
                }
            }
        }
    }
}

/// The pen position after `glyphs`, starting at `x` and adding each advance, saturating.
pub open spec fn advance_from(x: i32, glyphs: Seq<Glyph>) -> i32
    decreases glyphs.len(),
{
    if glyphs.len() == 0 {
        x
    } else {
        advance_from(sat_i32(x + glyphs[0].advance.0), glyphs.drop_first())
    }
}

/// How wide a group of runs is: from the first run's origin to the end of the last run's
/// last advance; zero for no runs.
pub open spec fn runs_width_spec(runs: Seq<GlyphRun>) -> i32 {
    if runs.len() == 0 {
        0
    } else {
        sat_i32(advance_from(runs.last().origin.x.0, runs.last().glyphs@) - runs[0].origin.x.0)
    }
}

proof fn lemma_advance_from_push(x: i32, glyphs: Seq<Glyph>, g: Glyph)
    ensures
        advance_from(x, glyphs.push(g)) == sat_i32(advance_from(x, glyphs) + g.advance.0),
    decreases glyphs.len(),
{
    if glyphs.len() > 0 {
        assert(glyphs.push(g).drop_first() =~= glyphs.drop_first().push(g));
        assert(glyphs.push(g)[0] == glyphs[0]);
        lemma_advance_from_push(sat_i32(x + glyphs[0].advance.0), glyphs.drop_first(), g);
    } else {
        assert(glyphs.push(g).drop_first() =~= Seq::<Glyph>::empty());
        assert(glyphs.push(g)[0] == g);
        reveal_with_fuel(advance_from, 2);
    }
}

/// The sum of a run's glyph advances, saturating.
pub fn run_advance(run: &GlyphRun) -> (r: Au)
    ensures
        r.0 == advance_from(0, run.glyphs@),
{
    let mut sum = Au::zero();
    let mut i: usize = 0;
    while i < run.glyphs.len()
        invariant
            i <= run.glyphs@.len(),
            sum.0 == advance_from(0, run.glyphs@.take(i as int)),
        decreases run.glyphs.len() - i,
    {
        proof {
            lemma_advance_from_push(0, run.glyphs@.take(i as int), run.glyphs@[i as int]);
            assert(run.glyphs@.take(i + 1) =~= run.glyphs@.take(i as int).push(run.glyphs@[i as int]));
        }
        sum = sum.saturating_add(run.glyphs[i].advance);
        i += 1;
    }
    proof {
        assert(run.glyphs@.take(i as int) =~= run.glyphs@);
    }
    sum
}

/// The width of a group of runs: from the first run's origin to the end of the last run's
/// advances, saturating.
pub fn runs_width(runs: &[GlyphRun]) -> (r: Au)
    ensures
        r.0 == runs_width_spec(runs@),
{
    if runs.len() == 0 {
        return Au::zero();
    }
    let first = &runs[0];
    let last = &runs[runs.len() - 1];
    let mut end = last.origin.x;
    let mut i: usize = 0;
    while i < last.glyphs.len()
        invariant
            i <= last.glyphs@.len(),
            end.0 == advance_from(last.origin.x.0, last.glyphs@.take(i as int)),
        decreases last.glyphs.len() - i,
    {
        proof {
            lemma_advance_from_push(last.origin.x.0, last.glyphs@.take(i as int), last.glyphs@[i as int]);
            assert(last.glyphs@.take(i + 1) =~= last.glyphs@.take(i as int).push(last.glyphs@[i as int]));
        }
        end = end.saturating_add(last.glyphs[i].advance);
        i += 1;
    }
    proof {
        assert(last.glyphs@.take(i as int) =~= last.glyphs@);
    }
    end.saturating_sub(first.origin.x)
}

} // verus!
