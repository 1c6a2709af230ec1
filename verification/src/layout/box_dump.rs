//! A stable, human-readable rendering of a [`BoxTree`], for snapshot tests and for
//! eyeballing what box generation produced: a `#boxtree` header, then one `| `-marked line
//! per box, two spaces of indentation per depth, each followed one level deeper by its
//! style's lines. A box is labelled by its kind and the index of the node it came from.
//! The style lines are the caller's, one list per entry of its style table, since the
//! computed styles live with the caller.
use vstd::prelude::*;

use crate::layout::box_tree::{BoxId, BoxKind, BoxTree, LayoutBox};
use crate::layout::dump::{decimal, indent, push_decimal};
use crate::layout::fragment::StyleId;
use crate::strutil::push_str;

verus! {

/// `children` as walk frames at `depth`, last child first (so that popping from the end
/// visits them in order).
pub open spec fn box_frames(children: Seq<BoxId>, depth: nat) -> Seq<(BoxId, nat)> {
    Seq::new(children.len(), |i: int| (children[children.len() - 1 - i], depth))
}

/// The pre-order walk of a box tree dump: pop a box, record it at its depth, push its
/// children one level deeper. At most `remaining` entries are popped; an id naming no box
/// is skipped.
pub open spec fn box_walk(
    boxes: Seq<LayoutBox>,
    stack: Seq<(BoxId, nat)>,
    remaining: nat,
    out: Seq<(BoxId, nat)>,
) -> Seq<(BoxId, nat)>
    decreases remaining,
{
    if stack.len() == 0 || remaining == 0 {
        out
    } else {
        let (id, depth) = stack.last();
        let rest = stack.drop_last();
        let rem = (remaining - 1) as nat;
        if id.0 < boxes.len() {
            box_walk(boxes, rest + box_frames(boxes[id.0 as int].children@, depth + 1), rem, out.push((id, depth)))
        } else {
            box_walk(boxes, rest, rem, out)
        }
    }
}

/// The pairs with their depths as natural numbers.
pub open spec fn box_depths(s: Seq<(BoxId, usize)>) -> Seq<(BoxId, nat)> {
    s.map_values(|f: (BoxId, usize)| (f.0, f.1 as nat))
}

/// The boxes a dump of `tree` prints, in order, each with its depth: a pre-order walk from
/// the root with one explicit stack, popping at most as many entries as there are boxes,
/// so even a malformed tree (a cycle, a shared child) yields a bounded listing.
pub fn box_dump_order(tree: &BoxTree) -> (r: Vec<(BoxId, usize)>)
    ensures
        box_depths(r@) == box_walk(tree.boxes@, seq![(tree.root, 0nat)], tree.boxes@.len(), Seq::empty()),
        forall|i: int| 0 <= i < r@.len() ==> (#[trigger] r@[i]).1 < tree.boxes@.len() && r@[i].0.0 < tree.boxes@.len(),
{
    let ghost boxes = tree.boxes@;
    let mut out: Vec<(BoxId, usize)> = Vec::new();
    let mut stack: Vec<(BoxId, usize)> = Vec::new();
    stack.push((tree.root, 0));
    let mut remaining: usize = tree.boxes.len();
    proof {
        assert(box_depths(stack@) =~= seq![(tree.root, 0nat)]);
        assert(box_depths(out@) =~= Seq::<(BoxId, nat)>::empty());
    }
    while stack.len() > 0 && remaining > 0
        invariant
            boxes == tree.boxes@,
            remaining <= boxes.len(),
            forall|i: int| 0 <= i < stack@.len() ==> (#[trigger] stack@[i]).1 <= boxes.len() - remaining,
            forall|i: int| 0 <= i < out@.len() ==> (#[trigger] out@[i]).1 < boxes.len() && out@[i].0.0 < boxes.len(),
            box_walk(boxes, box_depths(stack@), remaining as nat, box_depths(out@)) == box_walk(
                boxes,
                seq![(tree.root, 0nat)],
                boxes.len(),
                Seq::empty(),
            ),
        decreases remaining,
    {
        let ghost sv = stack@;
        let ghost ov = box_depths(out@);
        let (id, depth) = stack.pop().unwrap();
        proof {
            assert(box_depths(stack@) =~= box_depths(sv).drop_last());
            assert(box_depths(sv).last() == (id, depth as nat));
        }
        remaining -= 1;
        if id.index() >= tree.boxes.len() {
            proof {
                assert forall|i: int| 0 <= i < stack@.len() implies (#[trigger] stack@[i]).1 <= boxes.len() - remaining by {
                    assert(stack@[i] == sv[i]);
                }
            }
            continue;
        }
        let ghost out_before = out@;
        out.push((id, depth));
        proof {
            assert(box_depths(out@) =~= ov.push((id, depth as nat)));
            assert forall|i: int| 0 <= i < out@.len() implies (#[trigger] out@[i]).1 < boxes.len() && out@[i].0.0
                < boxes.len() by {
                if i < out_before.len() {
                    assert(out@[i] == out_before[i]);
                }
            }
        }
        let children = &tree.boxes[id.index()].children;
        let ghost base = box_depths(stack@);
        let ghost popped = stack@;
        let next_depth: usize = depth + 1;
        let mut i: usize = children.len();
        while i > 0
            invariant
                i <= children@.len(),
                next_depth == depth + 1,
                depth + 1 <= boxes.len() - remaining,
                box_depths(stack@) == base + box_frames(children@, (depth + 1) as nat).take(children@.len() - i),
                stack@.len() == popped.len() + (children@.len() - i),
                forall|k: int| 0 <= k < popped.len() ==> stack@[k] == popped[k],
                forall|k: int| popped.len() <= k < stack@.len() ==> (#[trigger] stack@[k]).1 == depth + 1,
            decreases i,
        {
            i -= 1;
            let ghost before = box_depths(stack@);
            stack.push((children[i], next_depth));
            proof {
                assert(box_depths(stack@) =~= before.push((children@[i as int], (depth + 1) as nat)));
                assert(box_frames(children@, (depth + 1) as nat).take(children@.len() - i) =~= box_frames(
                    children@,
                    (depth + 1) as nat,
                ).take(children@.len() - i - 1).push((children@[i as int], (depth + 1) as nat)));
            }
        }
        proof {
            assert(box_frames(children@, (depth + 1) as nat).take(children@.len() as int) =~= box_frames(
                children@,
                (depth + 1) as nat,
            ));
            assert forall|k: int| 0 <= k < stack@.len() implies (#[trigger] stack@[k]).1 <= boxes.len() - remaining by {
                if k < popped.len() {
                    assert(popped[k] == sv[k]);
                }
            }
        }
    }
    out
}

/// The name a box kind is dumped under.
pub open spec fn kind_name(kind: BoxKind) -> Seq<char> {
    match kind {
        BoxKind::Block => "Block"@,
        BoxKind::Inline => "Inline"@,
        BoxKind::InlineText => "InlineText"@,
        BoxKind::AnonymousBlock => "AnonymousBlock"@,
        BoxKind::AnonymousInline => "AnonymousInline"@,
        BoxKind::LineBreak => "LineBreak"@,
    }
}

/// The name a box kind is dumped under.
pub fn kind_str(kind: BoxKind) -> (r: &'static str)
    ensures
        r@ == kind_name(kind),
{
    match kind {
        BoxKind::Block => "Block",
        BoxKind::Inline => "Inline",
        BoxKind::InlineText => "InlineText",
        BoxKind::AnonymousBlock => "AnonymousBlock",
        BoxKind::AnonymousInline => "AnonymousInline",
        BoxKind::LineBreak => "LineBreak",
    }
}

/// A box's own dump line: its kind, then ` node=` and its node's index when it has one.
pub open spec fn label_spec(b: LayoutBox) -> Seq<char> {
    kind_name(b.kind) + match b.node {
        Some(n) => " node="@ + decimal(n.0 as nat),
        None => Seq::empty(),
    }
}

/// A box's own dump line: its kind, then ` node=` and its node's index when it has one.
pub fn label(b: &LayoutBox) -> (r: String)
    ensures
        r@ == label_spec(*b),
{
    let mut out = String::new();
    push_str(&mut out, kind_str(b.kind));
    match b.node {
        Some(n) => {
            push_str(&mut out, " node=");
            push_decimal(&mut out, n.0 as u64);
        },
        None => {},
    }
    out
}

/// A line break, the `| ` marker and `depth` levels of indentation.
pub open spec fn line_start(depth: nat) -> Seq<char> {
    "\n| "@ + Seq::new(2 * depth, |i: int| ' ')
}

/// The first `k` of `lines`, each on a line of its own at `depth`.
pub open spec fn lines_text(lines: Seq<Seq<char>>, depth: nat, k: int) -> Seq<char>
    decreases k,
{
    if k <= 0 {
        Seq::empty()
    } else {
        lines_text(lines, depth, k - 1) + line_start(depth) + lines[k - 1]
    }
}

/// The style lines of style `s`: its entry of `table`, none for an unknown style.
pub open spec fn style_entry(table: Seq<Seq<Seq<char>>>, s: StyleId) -> Seq<Seq<char>> {
    if (s.0 as int) < table.len() {
        table[s.0 as int]
    } else {
        Seq::empty()
    }
}

/// The caller's style-line table as text.
pub open spec fn table_view(table: Seq<Vec<String>>) -> Seq<Seq<Seq<char>>> {
    table.map_values(|v: Vec<String>| v@.map_values(|s: String| s@))
}

/// The text of the first `k` entries of `order`, after the header.
pub open spec fn dump_text(
    boxes: Seq<LayoutBox>,
    table: Seq<Seq<Seq<char>>>,
    order: Seq<(BoxId, nat)>,
    k: int,
) -> Seq<char>
    decreases k,
{
    if k <= 0 {
        "#boxtree"@
    } else {
        let (id, depth) = order[k - 1];
        let b = boxes[id.0 as int];
        let lines = style_entry(table, b.style);
        dump_text(boxes, table, order, k - 1) + line_start(depth) + label_spec(b) + lines_text(
            lines,
            depth + 1,
            lines.len() as int,
        )
    }
}

/// Renders every box of `tree` reachable from its root, in pre-order, with its label and,
/// one level deeper, the lines `style_lines` holds for its style (none for a style the
/// table does not hold).
#[verifier::rlimit(40)]
pub fn box_tree_dump(tree: &BoxTree, style_lines: &Vec<Vec<String>>) -> (r: String)
    ensures
        ({
            let order = box_walk(tree.boxes@, seq![(tree.root, 0nat)], tree.boxes@.len(), Seq::empty());
            r@ == dump_text(tree.boxes@, table_view(style_lines@), order, order.len() as int)
        }),
{
    let ghost boxes = tree.boxes@;
    let ghost table = table_view(style_lines@);
    let order = box_dump_order(tree);
    let ghost ov = box_depths(order@);
    let mut out = String::new();
    push_str(&mut out, "#boxtree");
    proof {
        assert(out@ =~= "#boxtree"@);
    }
    let mut k: usize = 0;
    while k < order.len()
        invariant
            boxes == tree.boxes@,
            table == table_view(style_lines@),
            ov == box_depths(order@),
            k <= order@.len(),
            forall|i: int| 0 <= i < order@.len() ==> (#[trigger] order@[i]).1 < boxes.len() && order@[i].0.0 < boxes.len(),
            out@ == dump_text(boxes, table, ov, k as int),
        decreases order.len() - k,
    {
        let (id, depth) = order[k];
        let b = &tree.boxes[id.index()];
        let ghost before = out@;
        push_str(&mut out, "\n| ");
        let ind = indent(depth);
        push_str(&mut out, ind.as_str());
        let lab = label(b);
        push_str(&mut out, lab.as_str());
        let ghost lines = style_entry(table, b.style);
        let ghost head = out@;
        proof {
            assert(ov[k as int] == (id, depth as nat));
            assert(head =~= before + line_start(depth as nat) + label_spec(*b));
        }
        assert(depth < tree.boxes.len());
        let si = b.style.index();
        if si < style_lines.len() {
            let own = &style_lines[si];
            let ind2 = indent(depth + 1);
            let mut t: usize = 0;
            proof {
                assert(lines == own@.map_values(|s: String| s@));
                assert(lines_text(lines, (depth + 1) as nat, 0) =~= Seq::<char>::empty());
                assert(out@ =~= head + lines_text(lines, (depth + 1) as nat, 0));
            }
            while t < own.len()
                invariant
                    t <= own@.len(),
                    lines == own@.map_values(|s: String| s@),
                    ind2@ == Seq::new((2 * (depth + 1)) as nat, |i: int| ' '),
                    out@ == head + lines_text(lines, (depth + 1) as nat, t as int),
                decreases own.len() - t,
            {
                let ghost o0 = out@;
                push_str(&mut out, "\n| ");
                push_str(&mut out, ind2.as_str());
                push_str(&mut out, own[t].as_str());
                t += 1;
                proof {
                    assert(lines[t - 1] == own@[t - 1]@);
                    assert(out@ =~= head + lines_text(lines, (depth + 1) as nat, t as int));
                }
            }
            proof {
                assert(out@ == head + lines_text(lines, (depth + 1) as nat, lines.len() as int));
            }
        } else {
            proof {
                assert(lines =~= Seq::<Seq<char>>::empty());
                assert(out@ =~= head + lines_text(lines, (depth + 1) as nat, lines.len() as int));
            }
        }
        k += 1;
        proof {
            assert(out@ =~= dump_text(boxes, table, ov, k as int));
        }
    }
    proof {
        assert(ov.len() == order@.len());
    }
    out
}

} // verus!
