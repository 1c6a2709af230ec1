//! Fragment and style identifiers, fragment kinds, the viewport, and the order in which a
//! fragment tree is dumped.
use vstd::prelude::*;

use crate::dom::document::NodeId;
use crate::layout::geom::{Rect, Size};
use crate::layout::text::GlyphRun;

verus! {

/// The `u32` an index is stored as: the index itself, or `u32::MAX` past that.
pub open spec fn saturated_index(index: int) -> u32 {
    if index <= u32::MAX {
        index as u32
    } else {
        u32::MAX
    }
}

/// A handle to one fragment of a fragment tree: its position in the tree's arena.
#[derive(Debug, Clone, Copy, PartialEq, Eq, Structural, PartialOrd, Ord, Hash)]
pub struct FragmentId(pub u32);

impl FragmentId {
    /// The id of the fragment at arena position `index` (saturating at `u32::MAX`).
    pub fn from_index(index: usize) -> (r: FragmentId)
        ensures
            r.0 == saturated_index(index as int),
    {
        if index <= u32::MAX as usize {
            FragmentId(index as u32)
        } else {
            FragmentId(u32::MAX)
        }
    }

    /// The arena position this id names.
    pub fn index(self) -> (r: usize)
        ensures
            r == self.0,
    {
        self.0 as usize
    }
}

/// A handle to one computed style of a fragment tree: its position in the style arena.
#[derive(Debug, Clone, Copy, PartialEq, Eq, Structural, PartialOrd, Ord, Hash)]
pub struct StyleId(pub u32);

impl StyleId {
    /// The id of the style at arena position `index` (saturating at `u32::MAX`).
    pub fn from_index(index: usize) -> (r: StyleId)
        ensures
            r.0 == saturated_index(index as int),
    {
        if index <= u32::MAX as usize {
            StyleId(index as u32)
        } else {
            StyleId(u32::MAX)
        }
    }

    /// The arena position this id names.
    pub fn index(self) -> (r: usize)
        ensures
            r == self.0,
    {
        self.0 as usize
    }
}

/// An id made from an index that fits reads that index back.
pub proof fn lemma_id_round_trip(index: usize)
    requires
        index <= u32::MAX,
    ensures
        saturated_index(index as int) == index,
{
}

/// What kind of box a fragment is.
#[derive(Debug, Clone)]
pub enum FragmentKind {
    /// A block box generated by an element.
    Block,
    /// An anonymous block box.
    AnonymousBlock,
    /// One line box.
    Line,
    /// A run of shaped text, as positioned glyph runs.
    Text {
        /// The glyph runs, in visual order.
        runs: Vec<GlyphRun>,
    },
}

/// One laid-out box: its kind, the node that generated it, its three boxes in absolute
/// coordinates, its style and its children.
#[derive(Debug, Clone)]
pub struct Fragment {
    /// The DOM node that generated this fragment, if any.
    pub node: Option<NodeId>,
    /// What kind of box this is.
    pub kind: FragmentKind,
    /// The border box.
    pub border_box: Rect,
    /// The padding box.
    pub padding_box: Rect,
    /// The content box.
    pub content_box: Rect,
    /// This fragment's computed style.
    pub style: StyleId,
    /// The child fragments, in order.
    pub children: Vec<FragmentId>,
}

/// The viewport layout runs against.
#[derive(Debug, Clone, Copy, PartialEq, Eq, Structural)]
pub struct Viewport {
    /// The viewport's size.
    pub size: Size,
}

/// `children` as walk frames at `depth`, last child first (so that popping from the end
/// visits them in order).
pub open spec fn fragment_frames(children: Seq<FragmentId>, depth: nat) -> Seq<(FragmentId, nat)> {
    Seq::new(children.len(), |i: int| (children[children.len() - 1 - i], depth))
}

/// The pre-order walk of a fragment tree dump: pop a fragment, record it at its depth, push
/// its children one level deeper. At most `remaining` fragments are popped; an id naming no
/// fragment is skipped.
pub open spec fn fragment_walk(
    frags: Seq<Fragment>,
    stack: Seq<(FragmentId, nat)>,
    remaining: nat,
    out: Seq<(FragmentId, nat)>,
) -> Seq<(FragmentId, nat)>
    decreases remaining,
{
    if stack.len() == 0 || remaining == 0 {
        out
    } else {
        let (id, depth) = stack.last();
        let rest = stack.drop_last();
        let rem = (remaining - 1) as nat;
        if id.0 < frags.len() {
            fragment_walk(
                frags,
                rest + fragment_frames(frags[id.0 as int].children@, depth + 1),
                rem,
                out.push((id, depth)),
            )
        } else {
            fragment_walk(frags, rest, rem, out)
        }
    }
}

/// The pairs with their depths as natural numbers.
pub open spec fn depth_views(s: Seq<(FragmentId, usize)>) -> Seq<(FragmentId, nat)> {
    s.map_values(|f: (FragmentId, usize)| (f.0, f.1 as nat))
}

/// The fragments a dump of the tree rooted at `root` prints, in order, each with its depth:
/// a pre-order walk with one explicit stack, popping at most as many entries as there are
/// fragments, so even a malformed tree (a cycle, a shared child) yields a bounded listing.
pub fn fragment_dump_order(fragments: &Vec<Fragment>, root: FragmentId) -> (r: Vec<(FragmentId, usize)>)
    ensures
        depth_views(r@) == fragment_walk(fragments@, seq![(root, 0nat)], fragments@.len(), Seq::empty()),
{
    let mut out: Vec<(FragmentId, usize)> = Vec::new();
    let mut stack: Vec<(FragmentId, usize)> = Vec::new();
    stack.push((root, 0));
    let mut remaining: usize = fragments.len();
    proof {
        assert(depth_views(stack@) =~= seq![(root, 0nat)]);
        assert(depth_views(out@) =~= Seq::<(FragmentId, nat)>::empty());
    }
    while stack.len() > 0 && remaining > 0
        invariant
            remaining <= fragments@.len(),
            forall|i: int| 0 <= i < stack@.len() ==> (#[trigger] stack@[i]).1 <= fragments@.len() - remaining,
            fragment_walk(fragments@, depth_views(stack@), remaining as nat, depth_views(out@))
                == fragment_walk(fragments@, seq![(root, 0nat)], fragments@.len(), Seq::empty()),
        decreases remaining,
    {
        let ghost sv = stack@;
        let ghost ov = depth_views(out@);
        let (id, depth) = stack.pop().unwrap();
        proof {
            assert(depth_views(stack@) =~= depth_views(sv).drop_last());
            assert(depth_views(sv).last() == (id, depth as nat));
        }
        remaining -= 1;
        if id.index() >= fragments.len() {
            proof {
                assert forall|i: int| 0 <= i < stack@.len() implies (#[trigger] stack@[i]).1 <= fragments@.len() - remaining by {
                    assert(stack@[i] == sv[i]);
                }
            }
            continue;
        }
        out.push((id, depth));
        proof {
            assert(depth_views(out@) =~= ov.push((id, depth as nat)));
        }
        let children = &fragments[id.index()].children;
        let ghost base = depth_views(stack@);
        let ghost popped = stack@;
        let next_depth: usize = depth + 1;
        let mut i: usize = children.len();
        while i > 0
            invariant
                i <= children@.len(),
                next_depth == depth + 1,
                depth + 1 <= fragments@.len() - remaining,
                depth_views(stack@) == base + fragment_frames(children@, (depth + 1) as nat).take(children@.len() - i),
                stack@.len() == popped.len() + (children@.len() - i),
                forall|k: int| 0 <= k < popped.len() ==> stack@[k] == popped[k],
                forall|k: int| popped.len() <= k < stack@.len() ==> (#[trigger] stack@[k]).1 == depth + 1,
            decreases i,
        {
            i -= 1;
            let ghost before = depth_views(stack@);
            stack.push((children[i], next_depth));
            proof {
                assert(depth_views(stack@) =~= before.push((children@[i as int], (depth + 1) as nat)));
                assert(fragment_frames(children@, (depth + 1) as nat).take(children@.len() - i) =~= fragment_frames(
                    children@,
                    (depth + 1) as nat,
                ).take(children@.len() - i - 1).push((children@[i as int], (depth + 1) as nat)));
            }
        }
        proof {
            assert(fragment_frames(children@, (depth + 1) as nat).take(children@.len() as int) =~= fragment_frames(
                children@,
                (depth + 1) as nat,
            ));
            assert forall|k: int| 0 <= k < stack@.len() implies (#[trigger] stack@[k]).1 <= fragments@.len() - remaining by {
                if k < popped.len() {
                    assert(popped[k] == sv[k]);
                }
            }
        }
    }
    out
}

} // verus!
