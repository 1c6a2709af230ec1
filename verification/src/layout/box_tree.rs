//! The box tree block layout walks: one box per element or text run, with its sizing
//! lengths already resolved against its containing block (percentages are resolved where
//! the computed style lives), and the queries layout makes of its structure.
use vstd::prelude::*;

use crate::dom::document::NodeId;
use crate::layout::au::Au;
use crate::layout::box_model::{collapse_margin_set, collapse_spec};
use crate::layout::fragment::StyleId;
use crate::layout::geom::Sides;
use crate::layout::resolve::{or_zero, UsedLengths};

verus! {

/// A handle to one box of a [`BoxTree`]: its position in the tree's arena.
#[derive(Debug, Clone, Copy, PartialEq, Eq, Structural, Hash)]
pub struct BoxId(pub u32);

impl BoxId {
    /// The arena position this id names.
    pub fn index(self) -> (r: usize)
        ensures
            r == self.0,
    {
        self.0 as usize
    }
}

/// What kind of box a box is.
#[derive(Debug, Clone, Copy, PartialEq, Eq, Structural)]
pub enum BoxKind {
    /// A block box generated by an element.
    Block,
    /// A block box wrapping a run of inline content among block siblings.
    AnonymousBlock,
    /// An inline box generated by an element.
    Inline,
    /// An inline box with no element of its own.
    AnonymousInline,
    /// A run of text from one text node.
    InlineText,
    /// A forced line break (`<br>`).
    LineBreak,
}

/// One box: its kind, the node and style that generated it, its lengths, and its children.
#[derive(Debug, Clone)]
pub struct LayoutBox {
    /// What kind of box this is.
    pub kind: BoxKind,
    /// The DOM node that generated it, if any.
    pub node: Option<NodeId>,
    /// Its computed style, by id in the caller's style table.
    pub style: StyleId,
    /// Its sizing lengths, resolved against its containing block.
    pub lengths: UsedLengths,
    /// Its content height were its containing block's height indefinite (a percentage
    /// `height` then behaves as `auto`): what margin collapsing through it consults.
    pub indefinite_height: Option<Au>,
    /// Its `min-height` were its containing block's height indefinite.
    pub indefinite_min_height: Au,
    /// Its `position: relative` offsets (`None` is `auto`), or `None` when it is not
    /// relatively positioned.
    pub offset: Option<Sides<Option<Au>>>,
    /// Its used `line-height`.
    pub line_height: Au,
    /// Its children, in document order.
    pub children: Vec<BoxId>,
}

/// The boxes of one document, in an arena, and the root box.
#[derive(Debug, Clone)]
pub struct BoxTree {
    /// The boxes, by arena position.
    pub boxes: Vec<LayoutBox>,
    /// The root box.
    pub root: BoxId,
}

/// Whether `id` names a box of `boxes`.
pub open spec fn box_valid(boxes: Seq<LayoutBox>, id: BoxId) -> bool {
    (id.0 as int) < boxes.len()
}

/// Block-level kinds: the two block boxes.
pub open spec fn block_level(kind: BoxKind) -> bool {
    kind == BoxKind::Block || kind == BoxKind::AnonymousBlock
}

/// `id`'s first child, when `id` has children and the first is a block-level box.
pub open spec fn first_block_child_spec(boxes: Seq<LayoutBox>, id: BoxId) -> Option<BoxId> {
    if box_valid(boxes, id) && boxes[id.0 as int].children@.len() > 0 {
        let c = boxes[id.0 as int].children@[0];
        if box_valid(boxes, c) && block_level(boxes[c.0 as int].kind) {
            Some(c)
        } else {
            None
        }
    } else {
        None
    }
}

/// `id`'s last child, when `id` has children and the last is a block-level box.
pub open spec fn last_block_child_spec(boxes: Seq<LayoutBox>, id: BoxId) -> Option<BoxId> {
    if box_valid(boxes, id) && boxes[id.0 as int].children@.len() > 0 {
        let c = boxes[id.0 as int].children@.last();
        if box_valid(boxes, c) && block_level(boxes[c.0 as int].kind) {
            Some(c)
        } else {
            None
        }
    } else {
        None
    }
}

/// The margins collapsing through `id`'s first-block-child chain: for as long as the box
/// reached has nothing separating it from its first block-level child (no top padding or
/// border), that child's top margin; at most `remaining` steps.
pub open spec fn top_chain(boxes: Seq<LayoutBox>, id: BoxId, eligible: bool, remaining: nat) -> Seq<Au>
    decreases remaining,
{
    if !eligible || remaining == 0 {
        Seq::empty()
    } else {
        match first_block_child_spec(boxes, id) {
            None => Seq::empty(),
            Some(c) => {
                let l = boxes[c.0 as int].lengths;
                seq![Au(or_zero(l.margin.top))] + top_chain(
                    boxes,
                    c,
                    l.padding.top.0 == 0 && l.border.top.0 == 0,
                    (remaining - 1) as nat,
                )
            },
        }
    }
}

/// Whether a box's bottom margin collapses with its last block-level child's: its height is
/// `auto`, its `min-height` zero, and it has no bottom padding or border.
pub open spec fn bottom_eligible(height_auto: bool, min_height: Au, padding_bottom: Au, border_bottom: Au) -> bool {
    height_auto && min_height.0 == 0 && padding_bottom.0 == 0 && border_bottom.0 == 0
}

/// The bottom-margin mirror of [`top_chain`], walking last block-level children; each box
/// on the chain is judged as if its containing block's height were indefinite.
pub open spec fn bottom_chain(boxes: Seq<LayoutBox>, id: BoxId, eligible: bool, remaining: nat) -> Seq<Au>
    decreases remaining,
{
    if !eligible || remaining == 0 {
        Seq::empty()
    } else {
        match last_block_child_spec(boxes, id) {
            None => Seq::empty(),
            Some(c) => {
                let b = boxes[c.0 as int];
                seq![Au(or_zero(b.lengths.margin.bottom))] + bottom_chain(
                    boxes,
                    c,
                    bottom_eligible(
                        b.indefinite_height is None,
                        b.indefinite_min_height,
                        b.lengths.padding.bottom,
                        b.lengths.border.bottom,
                    ),
                    (remaining - 1) as nat,
                )
            },
        }
    }
}

/// A box's effective top margin: its own, collapsed (largest positive plus most negative)
/// with every margin of its first-block-child chain.
pub open spec fn effective_top_spec(boxes: Seq<LayoutBox>, id: BoxId, own: Au, padding_top: Au, border_top: Au) -> i32 {
    collapse_spec(seq![own] + top_chain(boxes, id, padding_top.0 == 0 && border_top.0 == 0, boxes.len()))
}

/// A box's effective bottom margin: its own, collapsed with every margin of its
/// last-block-child chain.
pub open spec fn effective_bottom_spec(
    boxes: Seq<LayoutBox>,
    id: BoxId,
    own: Au,
    padding_bottom: Au,
    border_bottom: Au,
    height_auto: bool,
    min_height: Au,
) -> i32 {
    collapse_spec(
        seq![own] + bottom_chain(
            boxes,
            id,
            bottom_eligible(height_auto, min_height, padding_bottom, border_bottom),
            boxes.len(),
        ),
    )
}

impl BoxTree {
    /// The box `id` names, if any.
    pub fn get(&self, id: BoxId) -> (r: Option<&LayoutBox>)
        ensures
            r == (if box_valid(self.boxes@, id) {
                Some(&self.boxes@[id.0 as int])
            } else {
                None
            }),
    {
        if id.index() < self.boxes.len() {
            Some(&self.boxes[id.index()])
        } else {
            None
        }
    }

    /// The number of boxes.
    pub fn len(&self) -> (r: usize)
        ensures
            r == self.boxes@.len(),
    {
        self.boxes.len()
    }
}

/// Whether a box kind is block-level.
pub fn is_block_level(kind: &BoxKind) -> (r: bool)
    ensures
        r == block_level(*kind),
{
    match kind {
        BoxKind::Block | BoxKind::AnonymousBlock => true,
        _ => false,
    }
}

/// Whether a box kind is an anonymous block.
pub fn is_anonymous(kind: &BoxKind) -> (r: bool)
    ensures
        r == (*kind == BoxKind::AnonymousBlock),
{
    match kind {
        BoxKind::AnonymousBlock => true,
        _ => false,
    }
}

/// `id`'s first child, if it is block-level (either all of a box's children are
/// block-level or none are, so the first decides).
pub fn first_block_child(tree: &BoxTree, id: BoxId) -> (r: Option<BoxId>)
    ensures
        r == first_block_child_spec(tree.boxes@, id),
{
    let b = match tree.get(id) {
        Some(b) => b,
        None => {
            return None;
        },
    };
    if b.children.len() == 0 {
        return None;
    }
    let first = b.children[0];
    match tree.get(first) {
        Some(fb) => {
            if is_block_level(&fb.kind) {
                Some(first)
            } else {
                None
            }
        },
        None => None,
    }
}

/// `id`'s last child, if it is block-level.
pub fn last_block_child(tree: &BoxTree, id: BoxId) -> (r: Option<BoxId>)
    ensures
        r == last_block_child_spec(tree.boxes@, id),
{
    let b = match tree.get(id) {
        Some(b) => b,
        None => {
            return None;
        },
    };
    if b.children.len() == 0 {
        return None;
    }
    let last = b.children[b.children.len() - 1];
    match tree.get(last) {
        Some(lb) => {
            if is_block_level(&lb.kind) {
                Some(last)
            } else {
                None
            }
        },
        None => None,
    }
}

/// Whether `id` is a block container (it has children, and they are block-level) rather
/// than a leaf laid out in one step.
pub fn is_block_container(tree: &BoxTree, id: BoxId) -> (r: bool)
    ensures
        r == first_block_child_spec(tree.boxes@, id) is Some,
{
    first_block_child(tree, id).is_some()
}

/// The effective top margin of box `id` (CSS 2.1 §8.3.1): its own top margin `own`,
/// collapsed together with the top margins of its whole first-block-child chain, as far as
/// each box on it has no top padding or border. The set is collapsed at once, not pairwise.
pub fn effective_margin_top(tree: &BoxTree, id: BoxId, own: Au, padding_top: Au, border_top: Au) -> (r: Au)
    ensures
        r.0 == effective_top_spec(tree.boxes@, id, own, padding_top, border_top),
{
    let ghost boxes = tree.boxes@;
    let mut margins: Vec<Au> = Vec::new();
    margins.push(own);
    let mut eligible = padding_top.0 == 0 && border_top.0 == 0;
    let mut current = id;
    let mut remaining = tree.len();
    proof {
        assert(margins@ == seq![own]);
    }
    while eligible && remaining > 0
        invariant
            boxes == tree.boxes@,
            remaining <= boxes.len(),
            seq![own] + top_chain(boxes, id, padding_top.0 == 0 && border_top.0 == 0, boxes.len())
                == margins@ + top_chain(boxes, current, eligible, remaining as nat),
        decreases remaining,
    {
        let ghost m0 = margins@;
        let ghost before = top_chain(boxes, current, eligible, remaining as nat);
        remaining -= 1;
        let child_id = match first_block_child(tree, current) {
            Some(c) => c,
            None => {
                proof {
                    assert(before =~= Seq::<Au>::empty());
                    assert(m0 + before =~= m0 + top_chain(boxes, current, false, remaining as nat));
                }
                eligible = false;
                continue;
            },
        };
        let child = &tree.boxes[child_id.index()];
        let mt = match child.lengths.margin.top {
            Some(m) => m,
            None => Au(0),
        };
        margins.push(mt);
        eligible = child.lengths.padding.top.0 == 0 && child.lengths.border.top.0 == 0;
        current = child_id;
        proof {
            assert(margins@ + top_chain(boxes, current, eligible, remaining as nat) =~= m0 + before);
        }
    }
    proof {
        assert(top_chain(boxes, current, eligible, remaining as nat) =~= Seq::<Au>::empty());
        assert(margins@ + Seq::<Au>::empty() =~= margins@);
    }
    collapse_margin_set(margins.as_slice())
}

/// The bottom-margin mirror of [`effective_margin_top`], walking last block-level children;
/// the chain continues only through boxes with `height: auto`, zero `min-height` and no
/// bottom padding or border.
pub fn effective_margin_bottom(
    tree: &BoxTree,
    id: BoxId,
    own: Au,
    padding_bottom: Au,
    border_bottom: Au,
    height_auto: bool,
    min_height: Au,
) -> (r: Au)
    ensures
        r.0 == effective_bottom_spec(tree.boxes@, id, own, padding_bottom, border_bottom, height_auto, min_height),
{
    let ghost boxes = tree.boxes@;
    let mut margins: Vec<Au> = Vec::new();
    margins.push(own);
    let mut eligible = height_auto && min_height.0 == 0 && padding_bottom.0 == 0 && border_bottom.0 == 0;
    let mut current = id;
    let mut remaining = tree.len();
    proof {
        assert(margins@ == seq![own]);
    }
    while eligible && remaining > 0
        invariant
            boxes == tree.boxes@,
            remaining <= boxes.len(),
            seq![own] + bottom_chain(
                boxes,
                id,
                bottom_eligible(height_auto, min_height, padding_bottom, border_bottom),
                boxes.len(),
            ) == margins@ + bottom_chain(boxes, current, eligible, remaining as nat),
        decreases remaining,
    {
        let ghost m0 = margins@;
        let ghost before = bottom_chain(boxes, current, eligible, remaining as nat);
        remaining -= 1;
        let child_id = match last_block_child(tree, current) {
            Some(c) => c,
            None => {
                proof {
                    assert(before =~= Seq::<Au>::empty());
                    assert(m0 + before =~= m0 + bottom_chain(boxes, current, false, remaining as nat));
                }
                eligible = false;
                continue;
            },
        };
        let child = &tree.boxes[child_id.index()];
        let mb = match child.lengths.margin.bottom {
            Some(m) => m,
            None => Au(0),
        };
        margins.push(mb);
        eligible = child.indefinite_height.is_none() && child.indefinite_min_height.0 == 0
            && child.lengths.padding.bottom.0 == 0 && child.lengths.border.bottom.0 == 0;
        current = child_id;
        proof {
            assert(margins@ + bottom_chain(boxes, current, eligible, remaining as nat) =~= m0 + before);
        }
    }
    proof {
        assert(bottom_chain(boxes, current, eligible, remaining as nat) =~= Seq::<Au>::empty());
        assert(margins@ + Seq::<Au>::empty() =~= margins@);
    }
    collapse_margin_set(margins.as_slice())
}

/// A box with top padding or top border keeps its own top margin: nothing below it
/// collapses into it.
pub proof fn lemma_top_padding_or_border_keeps_own_margin(
    boxes: Seq<LayoutBox>,
    id: BoxId,
    own: Au,
    padding_top: Au,
    border_top: Au,
)
    requires
        padding_top.0 != 0 || border_top.0 != 0,
    ensures
        effective_top_spec(boxes, id, own, padding_top, border_top) == own.0,
{
    assert(seq![own] + top_chain(boxes, id, false, boxes.len()) =~= seq![own]);
    assert(seq![own].drop_last() =~= Seq::<Au>::empty());
    reveal_with_fuel(crate::layout::box_model::max_positive, 2);
    reveal_with_fuel(crate::layout::box_model::min_negative, 2);
}

/// Top margins collapse only through boxes with neither top padding nor top border: when a
/// box's first block-level child `c` has top padding or a top border, the box's effective
/// top margin is its own collapsed with `c`'s alone (the largest positive of the two plus
/// the most negative, each 0 if there is none), whatever lies below `c`.
pub proof fn lemma_top_collapse_stops_at_padding_or_border(
    boxes: Seq<LayoutBox>,
    id: BoxId,
    own: Au,
    c: BoxId,
)
    requires
        first_block_child_spec(boxes, id) == Some(c),
        boxes[c.0 as int].lengths.padding.top.0 != 0 || boxes[c.0 as int].lengths.border.top.0 != 0,
    ensures
        ({
            let a = own.0 as int;
            let b = or_zero(boxes[c.0 as int].lengths.margin.top) as int;
            let largest = if a >= b && a > 0 { a } else if b > a && b > 0 { b } else { 0 };
            let most_negative = if a <= b && a < 0 { a } else if b < a && b < 0 { b } else { 0 };
            effective_top_spec(boxes, id, own, Au(0), Au(0)) == largest + most_negative
        }),
{
    let mc = Au(or_zero(boxes[c.0 as int].lengths.margin.top));
    assert(boxes.len() >= 1);
    assert(top_chain(boxes, c, false, (boxes.len() - 1) as nat) =~= Seq::<Au>::empty());
    assert(top_chain(boxes, id, true, boxes.len()) =~= seq![mc]);
    let ms = seq![own] + seq![mc];
    assert(ms =~= seq![own, mc]);
    assert(ms.drop_last() =~= seq![own]);
    assert(ms.drop_last().drop_last() =~= Seq::<Au>::empty());
    reveal_with_fuel(crate::layout::box_model::max_positive, 3);
    reveal_with_fuel(crate::layout::box_model::min_negative, 3);
}

} // verus!
