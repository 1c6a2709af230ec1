//! Why the block walk finishes wherever it can: the steps it takes are counted in advance
//! over the tree (one per child slot of each box it opens a frame for, one more to finish
//! each frame), and every step lowers that count. The count exists exactly when no chain of
//! containers under the root is longer than the number of boxes, that is, when no container
//! lies under itself; boxes shared between several parents are counted once per place.
use vstd::prelude::*;

use crate::layout::block::{advance_rel, finalize_rel, frame_children, frames_valid, Frame};
use crate::layout::box_tree::{box_valid, first_block_child_spec, BoxId, LayoutBox};
use crate::layout::fragment::{Fragment, FragmentId};

verus! {

/// The steps the walk takes on the child slots of `kids` from slot `i` on, with `fuel`
/// levels of containers left below them: one per slot, and for a container child also
/// what its own frame takes and one step to finish it. `None` when a chain of containers
/// outruns the fuel.
pub open spec fn slots_cost(boxes: Seq<LayoutBox>, kids: Seq<BoxId>, i: int, fuel: nat) -> Option<nat>
    decreases fuel, kids.len() - i,
{
    if i < 0 || i >= kids.len() {
        Some(0)
    } else {
        let c = kids[i];
        let here: Option<nat> = if !box_valid(boxes, c) || first_block_child_spec(boxes, c) is None {
            Some(1)
        } else if fuel == 0 {
            None
        } else {
            match slots_cost(boxes, boxes[c.0 as int].children@, 0, (fuel - 1) as nat) {
                Some(t) => Some(t + 2),
                None => None,
            }
        };
        match (here, slots_cost(boxes, kids, i + 1, fuel)) {
            (Some(a), Some(b)) => Some(a + b),
            _ => None,
        }
    }
}

/// The fuel of the frame at stack position `j`: one level fewer per level down.
pub open spec fn fuel_at(n: nat, j: int) -> nat {
    if 0 <= j <= n { (n - j) as nat } else { 0 }
}

/// What frame `f` still has to do, with `fuel` levels of containers left below it.
pub open spec fn frame_cost(boxes: Seq<LayoutBox>, f: Frame, fuel: nat) -> Option<nat> {
    slots_cost(boxes, frame_children(boxes, f), f.next_child as int, fuel)
}

/// Every frame's remaining work is counted.
pub open spec fn frames_counted(boxes: Seq<LayoutBox>, s: Seq<Frame>) -> bool {
    forall|j: int| 0 <= j < s.len() ==> frame_cost(boxes, #[trigger] s[j], fuel_at(boxes.len(), j)) is Some
}

/// The steps the walk from stack `s` still takes: each frame's remaining work and one step
/// to finish it.
pub open spec fn frames_pot(boxes: Seq<LayoutBox>, s: Seq<Frame>) -> nat
    decreases s.len(),
{
    if s.len() == 0 {
        0
    } else {
        frames_pot(boxes, s.drop_last()) + match frame_cost(boxes, s.last(), fuel_at(boxes.len(), s.len() - 1)) {
            Some(v) => v + 1,
            None => 0,
        }
    }
}

/// The walk from `root` finishes: `root` is a box, no container lies under itself below it
/// (so its steps can be counted), and there are fewer of them than `usize::MAX`.
pub open spec fn walk_finishes(boxes: Seq<LayoutBox>, root: BoxId) -> bool {
    &&& box_valid(boxes, root)
    &&& slots_cost(boxes, boxes[root.0 as int].children@, 0, boxes.len()) matches Some(v) && v + 1 < usize::MAX
}

proof fn lemma_frames_pot_same(boxes: Seq<LayoutBox>, s: Seq<Frame>, t: Seq<Frame>)
    requires
        s.len() == t.len(),
        forall|j: int| 0 <= j < s.len() ==> (#[trigger] s[j]).box_id == t[j].box_id && s[j].next_child == t[j].next_child,
    ensures
        frames_pot(boxes, s) == frames_pot(boxes, t),
    decreases s.len(),
{
    if s.len() > 0 {
        let ds = s.drop_last();
        let dt = t.drop_last();
        assert forall|j: int| 0 <= j < ds.len() implies (#[trigger] ds[j]).box_id == dt[j].box_id && ds[j].next_child
            == dt[j].next_child by {
            assert(ds[j] == s[j] && dt[j] == t[j]);
        }
        lemma_frames_pot_same(boxes, ds, dt);
        assert(s.last() == s[s.len() - 1] && t.last() == t[t.len() - 1]);
    }
}

/// At the start, the root's frame carries the whole count.
pub proof fn lemma_walk_start(boxes: Seq<LayoutBox>, root: BoxId, f0: Frame)
    requires
        walk_finishes(boxes, root),
        f0.box_id == root,
        f0.next_child == 0,
    ensures
        frames_counted(boxes, seq![f0]),
        frames_pot(boxes, seq![f0]) < usize::MAX,
{
    let s = seq![f0];
    assert(s.drop_last() =~= Seq::<Frame>::empty());
    assert(frames_pot(boxes, Seq::<Frame>::empty()) == 0);
    assert(s.last() == f0 && s[0] == f0);
    assert(fuel_at(boxes.len(), 0) == boxes.len());
}

/// One advance takes one counted step, and opens a frame only where the count allows
/// one: never more than one frame per box and one more.
pub proof fn lemma_advance_pot(boxes: Seq<LayoutBox>, s0: Seq<Frame>, f0: Seq<Fragment>, s1: Seq<Frame>, f1: Seq<Fragment>)
    requires
        s0.len() > 0,
        s0.len() <= boxes.len() + 1,
        frames_valid(boxes, s0),
        frames_counted(boxes, s0),
        s0.last().next_child < frame_children(boxes, s0.last()).len(),
        advance_rel(boxes, s0, f0, s1, f1),
    ensures
        s1.len() <= boxes.len() + 1,
        frames_counted(boxes, s1),
        frames_pot(boxes, s1) < frames_pot(boxes, s0),
{
    let top = s0.last();
    let n = s0.len() as int;
    let t = n - 1;
    let fuel = fuel_at(boxes.len(), t);
    let kids = frame_children(boxes, top);
    let i0 = top.next_child as int;
    let c = kids[i0];
    assert(top == s0[t]);
    assert(box_valid(boxes, top.box_id));
    assert(kids.len() == boxes[top.box_id.0 as int].children.len());
    let rest = slots_cost(boxes, kids, i0 + 1, fuel);
    assert(frame_cost(boxes, s0[t], fuel) is Some);
    assert(rest is Some);
    let d = s0.drop_last();
    assert(s0.drop_last() == d);
    if box_valid(boxes, c) && first_block_child_spec(boxes, c) is Some {
        let tc = slots_cost(boxes, boxes[c.0 as int].children@, 0, (fuel - 1) as nat);
        assert(fuel > 0 && tc is Some);
        assert(t < boxes.len());
        assert(fuel_at(boxes.len(), n) == fuel - 1);
        let nf = s1.last();
        assert(s1[n] == nf);
        assert forall|j: int| 0 <= j < t implies #[trigger] s1[j] == s0[j] by {
            assert(s1.take(t)[j] == s1[j]);
            assert(d[j] == s0[j]);
        }
        assert forall|j: int| 0 <= j < s1.len() implies frame_cost(boxes, #[trigger] s1[j], fuel_at(boxes.len(), j)) is Some by {
            if j < t {
                assert(s1[j] == s0[j]);
            }
        }
        let s1d = s1.drop_last();
        assert(s1d.drop_last() =~= d);
        assert(s1d.last() == s1[t]);
        assert(frames_pot(boxes, s1d) == frames_pot(boxes, d) + rest.unwrap() + 1);
    } else {
        assert forall|j: int| 0 <= j < t implies #[trigger] s1[j] == s0[j] by {
            assert(s1.drop_last()[j] == s1[j]);
            assert(d[j] == s0[j]);
        }
        assert(s1.last() == s1[t]);
        assert forall|j: int| 0 <= j < s1.len() implies frame_cost(boxes, #[trigger] s1[j], fuel_at(boxes.len(), j)) is Some by {
            if j < t {
                assert(s1[j] == s0[j]);
            }
        }
        assert(s1.drop_last() =~= d);
    }
}

/// Finishing a frame that is not the last takes one counted step.
pub proof fn lemma_finalize_pot(boxes: Seq<LayoutBox>, s0: Seq<Frame>, f0: Seq<Fragment>, s1: Seq<Frame>, f1: Seq<Fragment>)
    requires
        s0.len() > 0,
        frames_counted(boxes, s0),
        s0.last().next_child >= frame_children(boxes, s0.last()).len(),
        finalize_rel(boxes, s0, f0, s1, f1, None::<FragmentId>),
    ensures
        frames_counted(boxes, s1),
        frames_pot(boxes, s1) < frames_pot(boxes, s0),
{
    let n = s0.len() as int;
    assert(s0.last() == s0[n - 1]);
    assert(n > 1);
    assert(s1.last() == s1[n - 2]);
    let d = s0.drop_last();
    assert forall|j: int| 0 <= j < s1.len() implies (#[trigger] s1[j]).box_id == d[j].box_id && s1[j].next_child
        == d[j].next_child by {
        assert(d[j] == s0[j]);
    }
    assert forall|j: int| 0 <= j < s1.len() implies frame_cost(boxes, #[trigger] s1[j], fuel_at(boxes.len(), j)) is Some by {
        assert(d[j] == s0[j]);
        assert(frame_cost(boxes, s0[j], fuel_at(boxes.len(), j)) is Some);
    }
    lemma_frames_pot_same(boxes, s1, d);
}

} // verus!
