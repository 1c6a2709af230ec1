//! The arena-backed DOM tree: a flat `Vec<Node>` addressed by [`NodeId`], plus the
//! tree-mutation operations that keep every node's parent, child and sibling links
//! mutually consistent.
//!
//! The links form a doubly-linked child list under every node. Alongside them the
//! document keeps, as ghost state, the child list of every node as a sequence and a rank
//! per node that strictly increases from parent to child; [`Document::wf`] ties the links
//! to those sequences, and the ranks make the parent relation acyclic. Every mutation is
//! proved to preserve [`Document::wf`] and to change the child sequences exactly as
//! documented.
use vstd::prelude::*;

use super::error::DomError;
use super::node::{Element, NodeKind};

verus! {

/// An index into a [`Document`]'s node arena.
///
/// `u32::MAX` is never assigned to a real node: [`NodeId::from_index`] saturates to it,
/// so an out-of-range index behaves like any other unknown id.
#[derive(Debug, Clone, Copy, PartialEq, Eq, Structural, PartialOrd, Ord, Hash)]
pub struct NodeId(pub u32);

impl NodeId {
    /// Builds a `NodeId` from a raw arena index, saturating to `u32::MAX` when `index`
    /// does not fit in a `u32`.
    pub fn from_index(index: usize) -> (r: NodeId)
        ensures
            r.0 == (if index <= u32::MAX { index as u32 } else { u32::MAX }),
    {
        if index <= u32::MAX as usize {
            NodeId(index as u32)
        } else {
            NodeId(u32::MAX)
        }
    }

    /// The raw arena index this id names.
    pub fn index(self) -> (r: usize)
        ensures
            r == self.0,
    {
        self.0 as usize
    }
}

/// Which of the three HTML quirks rendering modes a document was parsed in.
#[derive(Debug, Clone, Copy, PartialEq, Eq, Structural)]
pub enum QuirksMode {
    /// Standards mode.
    NoQuirks,
    /// "Almost standards" mode.
    LimitedQuirks,
    /// Full quirks mode.
    Quirks,
}

/// A node in a [`Document`]'s arena: its kind-specific data plus its tree links.
///
/// The links are private: read them through the getters, and change them only through
/// [`Document`]'s mutation methods.
#[derive(Debug, Clone)]
pub struct Node {
    /// This node's kind-specific data.
    pub kind: NodeKind,
    parent: Option<NodeId>,
    first_child: Option<NodeId>,
    last_child: Option<NodeId>,
    prev_sibling: Option<NodeId>,
    next_sibling: Option<NodeId>,
}

impl Node {
    /// This node's kind-specific data.
    pub closed spec fn spec_kind(&self) -> NodeKind {
        self.kind
    }

    /// This node's kind-specific data.
    pub fn kind(&self) -> (r: &NodeKind)
        ensures
            *r == self.spec_kind(),
    {
        &self.kind
    }

    /// The parent link.
    pub closed spec fn spec_parent(&self) -> Option<NodeId> {
        self.parent
    }

    /// The first-child link.
    pub closed spec fn spec_first_child(&self) -> Option<NodeId> {
        self.first_child
    }

    /// The last-child link.
    pub closed spec fn spec_last_child(&self) -> Option<NodeId> {
        self.last_child
    }

    /// The previous-sibling link.
    pub closed spec fn spec_prev_sibling(&self) -> Option<NodeId> {
        self.prev_sibling
    }

    /// The next-sibling link.
    pub closed spec fn spec_next_sibling(&self) -> Option<NodeId> {
        self.next_sibling
    }

    /// A fresh, fully detached node (no parent, no children, no siblings).
    pub open spec fn detached(&self, kind: NodeKind) -> bool {
        &&& self.spec_kind() == kind
        &&& self.spec_parent() is None
        &&& self.spec_first_child() is None
        &&& self.spec_last_child() is None
        &&& self.spec_prev_sibling() is None
        &&& self.spec_next_sibling() is None
    }

    fn new(kind: NodeKind) -> (r: Node)
        ensures
            r.detached(kind),
    {
        Node {
            kind,
            parent: None,
            first_child: None,
            last_child: None,
            prev_sibling: None,
            next_sibling: None,
        }
    }

    /// This node's parent, or `None` for the document root or a detached node.
    pub fn parent(&self) -> (r: Option<NodeId>)
        ensures
            r == self.spec_parent(),
    {
        self.parent
    }

    /// This node's first child in document order.
    pub fn first_child(&self) -> (r: Option<NodeId>)
        ensures
            r == self.spec_first_child(),
    {
        self.first_child
    }

    /// This node's last child in document order.
    pub fn last_child(&self) -> (r: Option<NodeId>)
        ensures
            r == self.spec_last_child(),
    {
        self.last_child
    }

    /// The sibling immediately before this node under their shared parent.
    pub fn prev_sibling(&self) -> (r: Option<NodeId>)
        ensures
            r == self.spec_prev_sibling(),
    {
        self.prev_sibling
    }

    /// The sibling immediately after this node under their shared parent.
    pub fn next_sibling(&self) -> (r: Option<NodeId>)
        ensures
            r == self.spec_next_sibling(),
    {
        self.next_sibling
    }
}

/// The arena index an id names, as a mathematical integer.
pub open spec fn idx(id: NodeId) -> int {
    id.0 as int
}

/// `nodes[x]`'s parent link.
pub open spec fn parent_at(nodes: Seq<Node>, x: int) -> Option<NodeId> {
    nodes[x].spec_parent()
}

/// Whether `a` is reachable from `x` by following at most `fuel` parent links (`x`
/// itself counts, with no step).
pub open spec fn anc_within(nodes: Seq<Node>, a: int, x: int, fuel: nat) -> bool
    decreases fuel,
{
    if x == a {
        true
    } else if fuel == 0 || !(0 <= x < nodes.len()) {
        false
    } else {
        match parent_at(nodes, x) {
            Some(p) => anc_within(nodes, a, idx(p), (fuel - 1) as nat),
            None => false,
        }
    }
}

/// Whether `a` is `x` or one of `x`'s ancestors.
pub open spec fn anc(nodes: Seq<Node>, a: int, x: int) -> bool {
    exists|f: nat| #[trigger] anc_within(nodes, a, x, f)
}

/// The links of `p`'s children agree with the child sequence `cs`.
pub open spec fn list_links_ok(nodes: Seq<Node>, p: int, cs: Seq<NodeId>) -> bool {
    &&& first_at(nodes, p) == (if cs.len() == 0 { None } else { Some(cs[0]) })
    &&& last_at(nodes, p) == (if cs.len() == 0 { None } else { Some(cs.last()) })
    &&& cs.no_duplicates()
    &&& forall|i: int| 0 <= i < cs.len() ==> #[trigger] member_ok(nodes, p, cs, i)
}

/// The links of `cs[i]`, the `i`-th child of `p`.
pub open spec fn member_ok(nodes: Seq<Node>, p: int, cs: Seq<NodeId>, i: int) -> bool {
    &&& 0 <= idx(cs[i]) < nodes.len()
    &&& parent_at(nodes, idx(cs[i])) == Some(NodeId(p as u32))
    &&& prev_at(nodes, idx(cs[i])) == (if i == 0 {
        None
    } else {
        Some(cs[i - 1])
    })
    &&& next_at(nodes, idx(cs[i])) == (if i + 1 == cs.len() {
        None
    } else {
        Some(cs[i + 1])
    })
}

/// The parent link of `c` is backed by `p`'s child sequence, and ranks increase from
/// parent to child; a node with no parent has no siblings either.
pub open spec fn parent_ok(nodes: Seq<Node>, kids: Seq<Seq<NodeId>>, rank: Seq<nat>, c: int) -> bool {
    match parent_at(nodes, c) {
        Some(q) => {
            &&& 0 <= idx(q) < nodes.len()
            &&& kids[idx(q)].contains(NodeId(c as u32))
            &&& rank[idx(q)] < rank[c]
        },
        None => {
            &&& prev_at(nodes, c) is None
            &&& next_at(nodes, c) is None
        },
    }
}

/// The whole-arena well-formedness invariant.
pub open spec fn wf_parts(nodes: Seq<Node>, kids: Seq<Seq<NodeId>>, rank: Seq<nat>) -> bool {
    &&& 1 <= nodes.len() <= u32::MAX
    &&& kids.len() == nodes.len()
    &&& rank.len() == nodes.len()
    &&& parent_at(nodes, 0) is None
    &&& forall|p: int| 0 <= p < nodes.len() ==> #[trigger] list_links_ok(nodes, p, kids[p])
    &&& forall|c: int| 0 <= c < nodes.len() ==> #[trigger] parent_ok(nodes, kids, rank, c)
}

/// `nodes[x]`'s previous-sibling link.
pub open spec fn prev_at(nodes: Seq<Node>, x: int) -> Option<NodeId> {
    nodes[x].spec_prev_sibling()
}

/// `nodes[x]`'s next-sibling link.
pub open spec fn next_at(nodes: Seq<Node>, x: int) -> Option<NodeId> {
    nodes[x].spec_next_sibling()
}

/// `nodes[x]`'s first-child link.
pub open spec fn first_at(nodes: Seq<Node>, x: int) -> Option<NodeId> {
    nodes[x].spec_first_child()
}

/// `nodes[x]`'s last-child link.
pub open spec fn last_at(nodes: Seq<Node>, x: int) -> Option<NodeId> {
    nodes[x].spec_last_child()
}

/// `n2` differs from `n1` exactly by removing `cs[k]` (with `cs` the child sequence of
/// `p`) from its parent's child list: the neighbours are linked to each other, and the
/// removed node keeps its own children but loses its parent and siblings.
pub open spec fn removal_links(n1: Seq<Node>, n2: Seq<Node>, p: int, cs: Seq<NodeId>, k: int) -> bool {
    let z = idx(cs[k]);
    &&& n2.len() == n1.len()
    &&& forall|x: int| 0 <= x < n1.len() ==> #[trigger] n2[x].spec_kind() == n1[x].spec_kind()
    &&& forall|x: int|
        0 <= x < n1.len() ==> #[trigger] parent_at(n2, x) == (if x == z {
            None
        } else {
            parent_at(n1, x)
        })
    &&& forall|x: int|
        0 <= x < n1.len() ==> #[trigger] prev_at(n2, x) == (if x == z {
            None
        } else if k + 1 < cs.len() && x == idx(cs[k + 1]) {
            prev_at(n1, z)
        } else {
            prev_at(n1, x)
        })
    &&& forall|x: int|
        0 <= x < n1.len() ==> #[trigger] next_at(n2, x) == (if x == z {
            None
        } else if k > 0 && x == idx(cs[k - 1]) {
            next_at(n1, z)
        } else {
            next_at(n1, x)
        })
    &&& forall|x: int|
        0 <= x < n1.len() ==> #[trigger] first_at(n2, x) == (if x == p && k == 0 {
            next_at(n1, z)
        } else {
            first_at(n1, x)
        })
    &&& forall|x: int|
        0 <= x < n1.len() ==> #[trigger] last_at(n2, x) == (if x == p && k + 1 == cs.len() {
            prev_at(n1, z)
        } else {
            last_at(n1, x)
        })
}

/// `n2` differs from `n1` exactly by inserting the detached node `c` at position `k` of
/// `p`'s child sequence `cs`.
pub open spec fn insertion_links(n1: Seq<Node>, n2: Seq<Node>, p: int, cs: Seq<NodeId>, k: int, c: int) -> bool {
    &&& n2.len() == n1.len()
    &&& forall|x: int| 0 <= x < n1.len() ==> #[trigger] n2[x].spec_kind() == n1[x].spec_kind()
    &&& forall|x: int|
        0 <= x < n1.len() ==> #[trigger] parent_at(n2, x) == (if x == c {
            Some(NodeId(p as u32))
        } else {
            parent_at(n1, x)
        })
    &&& forall|x: int|
        0 <= x < n1.len() ==> #[trigger] prev_at(n2, x) == (if x == c {
            if k > 0 {
                Some(cs[k - 1])
            } else {
                None
            }
        } else if k < cs.len() && x == idx(cs[k]) {
            Some(NodeId(c as u32))
        } else {
            prev_at(n1, x)
        })
    &&& forall|x: int|
        0 <= x < n1.len() ==> #[trigger] next_at(n2, x) == (if x == c {
            if k < cs.len() {
                Some(cs[k])
            } else {
                None
            }
        } else if k > 0 && x == idx(cs[k - 1]) {
            Some(NodeId(c as u32))
        } else {
            next_at(n1, x)
        })
    &&& forall|x: int|
        0 <= x < n1.len() ==> #[trigger] first_at(n2, x) == (if x == p && k == 0 {
            Some(NodeId(c as u32))
        } else {
            first_at(n1, x)
        })
    &&& forall|x: int|
        0 <= x < n1.len() ==> #[trigger] last_at(n2, x) == (if x == p && k == cs.len() {
            Some(NodeId(c as u32))
        } else {
            last_at(n1, x)
        })
}

/// Taking one more parent step from an ancestor of `q`'s parent reaches `x`.
pub proof fn lemma_anc_step_down(nodes: Seq<Node>, a: int, q: NodeId, x: int, f: nat)
    requires
        0 <= x < nodes.len(),
        parent_at(nodes, x) == Some(q),
        anc_within(nodes, a, idx(q), f),
    ensures
        anc_within(nodes, a, x, f + 1),
{
}

/// A chain from `x` to `a` that does not stop at `x` goes through `x`'s parent.
pub proof fn lemma_anc_step_up(nodes: Seq<Node>, a: int, x: int, q: NodeId, f: nat)
    requires
        x != a,
        parent_at(nodes, x) == Some(q),
        anc_within(nodes, a, x, f),
    ensures
        f > 0,
        anc_within(nodes, a, idx(q), (f - 1) as nat),
{
}

/// If `a` is reachable from `x`, so is `a`'s parent.
pub proof fn lemma_anc_extend_target(nodes: Seq<Node>, a: int, b: NodeId, x: int, f: nat)
    requires
        0 <= a < nodes.len(),
        parent_at(nodes, a) == Some(b),
        anc_within(nodes, a, x, f),
    ensures
        anc_within(nodes, idx(b), x, f + 1),
    decreases f,
{
    if x == a {
        assert(anc_within(nodes, idx(b), idx(b), 0));
        lemma_anc_step_down(nodes, idx(b), b, a, 0);
        lemma_anc_mono_fuel(nodes, idx(b), x, 1, f + 1);
    } else {
        let q = parent_at(nodes, x).unwrap();
        lemma_anc_step_up(nodes, a, x, q, f);
        lemma_anc_extend_target(nodes, a, b, idx(q), (f - 1) as nat);
        lemma_anc_step_down(nodes, idx(b), q, x, f);
    }
}

/// More fuel never hurts.
pub proof fn lemma_anc_mono_fuel(nodes: Seq<Node>, a: int, x: int, f: nat, g: nat)
    requires
        anc_within(nodes, a, x, f),
        f <= g,
    ensures
        anc_within(nodes, a, x, g),
    decreases f,
{
    if x != a {
        let q = parent_at(nodes, x).unwrap();
        lemma_anc_step_up(nodes, a, x, q, f);
        lemma_anc_mono_fuel(nodes, a, idx(q), (f - 1) as nat, (g - 1) as nat);
    }
}

/// Chains in `n2` are chains in `n1` when the two agree on every parent link except
/// `z`'s, and `z` either has no parent in `n2` or is not reachable from `x` in `n1`.
pub proof fn lemma_anc_frame(n1: Seq<Node>, n2: Seq<Node>, z: int, a: int, x: int, f: nat)
    requires
        n1.len() == n2.len(),
        forall|y: int| 0 <= y < n1.len() && y != z ==> #[trigger] parent_at(n2, y) == parent_at(n1, y),
        parent_at(n2, z) is None || !anc(n1, z, x),
        anc_within(n2, a, x, f),
    ensures
        anc_within(n1, a, x, f),
    decreases f,
{
    if x != a {
        let q = parent_at(n2, x).unwrap();
        if x == z {
            assert(anc_within(n1, z, x, 0));
        }
        assert(x != z);
        assert(parent_at(n1, x) == Some(q));
        if parent_at(n2, z) is Some && anc(n1, z, idx(q)) {
            let g = choose|g: nat| anc_within(n1, z, idx(q), g);
            lemma_anc_step_down(n1, z, q, x, g);
        }
        lemma_anc_frame(n1, n2, z, a, idx(q), (f - 1) as nat);
    }
}

/// Unlinking `cs[k]` from its parent `p` (as [`removal_links`] describes) keeps the
/// arena well formed, with `p`'s child sequence losing exactly that entry.
pub proof fn lemma_removal_wf(
    n1: Seq<Node>,
    kids: Seq<Seq<NodeId>>,
    rank: Seq<nat>,
    n2: Seq<Node>,
    p: int,
    k: int,
)
    requires
        wf_parts(n1, kids, rank),
        0 <= p < n1.len(),
        0 <= k < kids[p].len(),
        removal_links(n1, n2, p, kids[p], k),
    ensures
        wf_parts(n2, kids.update(p, kids[p].remove(k)), rank),
{
    let cs = kids[p];
    let kids2 = kids.update(p, cs.remove(k));
    assert(list_links_ok(n1, p, cs));
    assert(parent_ok(n1, kids, rank, 0));
    assert(member_ok(n1, p, cs, k));
    assert forall|q: int| 0 <= q < n2.len() implies #[trigger] list_links_ok(n2, q, kids2[q]) by {
        if q == p {
            lemma_removal_list_same(n1, kids, rank, n2, p, k);
        } else {
            lemma_removal_list_other(n1, kids, rank, n2, p, k, q);
        }
    }
    assert forall|c: int| 0 <= c < n2.len() implies #[trigger] parent_ok(n2, kids2, rank, c) by {
        lemma_removal_parent_ok(n1, kids, rank, n2, p, k, c);
    }
}

proof fn lemma_removal_list_same(
    n1: Seq<Node>,
    kids: Seq<Seq<NodeId>>,
    rank: Seq<nat>,
    n2: Seq<Node>,
    p: int,
    k: int,
)
    requires
        wf_parts(n1, kids, rank),
        0 <= p < n1.len(),
        0 <= k < kids[p].len(),
        removal_links(n1, n2, p, kids[p], k),
    ensures
        list_links_ok(n2, p, kids[p].remove(k)),
{
    let cs = kids[p];
    let cs2 = cs.remove(k);
    assert(list_links_ok(n1, p, cs));
    assert(member_ok(n1, p, cs, k));
    assert forall|i: int| 0 <= i < cs2.len() implies #[trigger] member_ok(n2, p, cs2, i) by {
        if i < k {
            assert(cs2[i] == cs[i]);
            assert(member_ok(n1, p, cs, i));
            if k + 1 < cs.len() {
                assert(cs[i] != cs[k + 1]);
            }
            if i > 0 {
                assert(cs2[i - 1] == cs[i - 1]);
            }
            if i + 1 < k {
                assert(cs2[i + 1] == cs[i + 1]);
            }
            if i + 1 == k && k + 1 < cs.len() {
                assert(cs2[i + 1] == cs[k + 1]);
            }
        } else {
            assert(cs2[i] == cs[i + 1]);
            assert(member_ok(n1, p, cs, i + 1));
            if k > 0 {
                assert(cs[i + 1] != cs[k - 1]);
            }
            if i > k {
                assert(cs2[i - 1] == cs[i]);
            }
            if i == k && k > 0 {
                assert(cs2[i - 1] == cs[k - 1]);
            }
            if i + 1 < cs2.len() {
                assert(cs2[i + 1] == cs[i + 2]);
            }
        }
    }
    if k == 0 && cs2.len() > 0 {
        assert(cs2[0] == cs[1]);
    }
    if k + 1 == cs.len() && cs2.len() > 0 {
        assert(cs2.last() == cs[k - 1]);
    }
    if k > 0 {
        assert(cs2[0] == cs[0]);
    }
    if k + 1 < cs.len() {
        assert(cs2.last() == cs.last());
    }
}

proof fn lemma_removal_list_other(
    n1: Seq<Node>,
    kids: Seq<Seq<NodeId>>,
    rank: Seq<nat>,
    n2: Seq<Node>,
    p: int,
    k: int,
    q: int,
)
    requires
        wf_parts(n1, kids, rank),
        0 <= p < n1.len(),
        0 <= q < n1.len(),
        q != p,
        0 <= k < kids[p].len(),
        removal_links(n1, n2, p, kids[p], k),
    ensures
        list_links_ok(n2, q, kids[q]),
{
    let cs = kids[p];
    let cq = kids[q];
    let z = idx(cs[k]);
    assert(list_links_ok(n1, p, cs));
    assert(list_links_ok(n1, q, cq));
    assert(member_ok(n1, p, cs, k));
    if k + 1 < cs.len() {
        assert(member_ok(n1, p, cs, k + 1));
    }
    if k > 0 {
        assert(member_ok(n1, p, cs, k - 1));
    }
    assert forall|i: int| 0 <= i < cq.len() implies #[trigger] member_ok(n2, q, cq, i) by {
        assert(member_ok(n1, q, cq, i));
    }
}

proof fn lemma_removal_parent_ok(
    n1: Seq<Node>,
    kids: Seq<Seq<NodeId>>,
    rank: Seq<nat>,
    n2: Seq<Node>,
    p: int,
    k: int,
    c: int,
)
    requires
        wf_parts(n1, kids, rank),
        0 <= p < n1.len(),
        0 <= c < n1.len(),
        0 <= k < kids[p].len(),
        removal_links(n1, n2, p, kids[p], k),
    ensures
        parent_ok(n2, kids.update(p, kids[p].remove(k)), rank, c),
{
    let cs = kids[p];
    let cs2 = cs.remove(k);
    let z = idx(cs[k]);
    assert(list_links_ok(n1, p, cs));
    assert(parent_ok(n1, kids, rank, c));
    assert(member_ok(n1, p, cs, k));
    if k + 1 < cs.len() {
        assert(member_ok(n1, p, cs, k + 1));
    }
    if k > 0 {
        assert(member_ok(n1, p, cs, k - 1));
    }
    if c != z {
        if let Some(q) = parent_at(n1, c) {
            if idx(q) == p {
                let j = choose|j: int| 0 <= j < cs.len() && cs[j] == NodeId(c as u32);
                assert(j != k);
                if j < k {
                    assert(cs2[j] == cs[j]);
                } else {
                    assert(cs2[j - 1] == cs[j]);
                }
            }
        }
    }
}

/// The ranks after attaching the detached node `c` under `p`: every node of `c`'s own
/// subtree moves above `p`'s rank, everything else keeps its rank.
pub open spec fn shifted_rank(nodes: Seq<Node>, rank: Seq<nat>, c: int, p: int) -> Seq<nat> {
    Seq::new(
        rank.len(),
        |x: int|
            if anc(nodes, c, x) {
                rank[x] + rank[p] + 1
            } else {
                rank[x]
            },
    )
}

/// Within a well-formed arena, `c` reaches `x` exactly when it reaches `x`'s parent, for
/// any `x` other than `c`.
pub proof fn lemma_anc_parent_iff(nodes: Seq<Node>, c: int, x: int, q: NodeId)
    requires
        0 <= x < nodes.len(),
        x != c,
        parent_at(nodes, x) == Some(q),
    ensures
        anc(nodes, c, x) == anc(nodes, c, idx(q)),
{
    if anc(nodes, c, x) {
        let f = choose|f: nat| anc_within(nodes, c, x, f);
        lemma_anc_step_up(nodes, c, x, q, f);
        assert(anc_within(nodes, c, idx(q), (f - 1) as nat));
    }
    if anc(nodes, c, idx(q)) {
        let f = choose|f: nat| anc_within(nodes, c, idx(q), f);
        lemma_anc_step_down(nodes, c, q, x, f);
    }
}

/// Attaching the detached, non-root node `c` at position `k` of `p`'s children (as
/// [`insertion_links`] describes), where `c` is not `p` or one of its ancestors, keeps
/// the arena well formed.
pub proof fn lemma_insertion_wf(
    n1: Seq<Node>,
    kids: Seq<Seq<NodeId>>,
    rank: Seq<nat>,
    n2: Seq<Node>,
    p: int,
    k: int,
    c: int,
)
    requires
        wf_parts(n1, kids, rank),
        0 <= p < n1.len(),
        0 < c < n1.len(),
        0 <= k <= kids[p].len(),
        parent_at(n1, c) is None,
        !anc(n1, c, p),
        insertion_links(n1, n2, p, kids[p], k, c),
    ensures
        wf_parts(
            n2,
            kids.update(p, kids[p].insert(k, NodeId(c as u32))),
            shifted_rank(n1, rank, c, p),
        ),
{
    let cs = kids[p];
    let kids2 = kids.update(p, cs.insert(k, NodeId(c as u32)));
    let r2 = shifted_rank(n1, rank, c, p);
    assert(list_links_ok(n1, p, cs));
    assert(parent_ok(n1, kids, rank, 0));
    assert forall|q: int| 0 <= q < n2.len() implies #[trigger] list_links_ok(n2, q, kids2[q]) by {
        if q == p {
            lemma_insertion_list_same(n1, kids, rank, n2, p, k, c);
        } else {
            lemma_insertion_list_other(n1, kids, rank, n2, p, k, c, q);
        }
    }
    assert forall|x: int| 0 <= x < n2.len() implies #[trigger] parent_ok(n2, kids2, r2, x) by {
        lemma_insertion_parent_ok(n1, kids, rank, n2, p, k, c, x);
    }
}

proof fn lemma_not_member_of_detached(n1: Seq<Node>, kids: Seq<Seq<NodeId>>, rank: Seq<nat>, p: int, c: int)
    requires
        wf_parts(n1, kids, rank),
        0 <= p < n1.len(),
        0 <= c < n1.len(),
        parent_at(n1, c) is None,
    ensures
        !kids[p].contains(NodeId(c as u32)),
{
    assert(list_links_ok(n1, p, kids[p]));
    if kids[p].contains(NodeId(c as u32)) {
        let j = choose|j: int| 0 <= j < kids[p].len() && kids[p][j] == NodeId(c as u32);
        assert(member_ok(n1, p, kids[p], j));
    }
}

proof fn lemma_insertion_list_same(
    n1: Seq<Node>,
    kids: Seq<Seq<NodeId>>,
    rank: Seq<nat>,
    n2: Seq<Node>,
    p: int,
    k: int,
    c: int,
)
    requires
        wf_parts(n1, kids, rank),
        0 <= p < n1.len(),
        0 < c < n1.len(),
        0 <= k <= kids[p].len(),
        parent_at(n1, c) is None,
        insertion_links(n1, n2, p, kids[p], k, c),
    ensures
        list_links_ok(n2, p, kids[p].insert(k, NodeId(c as u32))),
{
    let cs = kids[p];
    let cid = NodeId(c as u32);
    let cs2 = cs.insert(k, cid);
    assert(list_links_ok(n1, p, cs));
    lemma_not_member_of_detached(n1, kids, rank, p, c);
    assert forall|i: int| 0 <= i < cs2.len() implies #[trigger] member_ok(n2, p, cs2, i) by {
        if i < k {
            assert(cs2[i] == cs[i]);
            assert(member_ok(n1, p, cs, i));
            if k < cs.len() {
                assert(cs[i] != cs[k]);
            }
            if i > 0 {
                assert(cs2[i - 1] == cs[i - 1]);
            }
            if i + 1 < k {
                assert(cs2[i + 1] == cs[i + 1]);
            }
            if i + 1 == k {
                assert(cs2[i + 1] == cid);
            }
        } else if i == k {
            assert(cs2[i] == cid);
            if k > 0 {
                assert(cs2[i - 1] == cs[k - 1]);
            }
            if k < cs.len() {
                assert(cs2[i + 1] == cs[k]);
            }
        } else {
            assert(cs2[i] == cs[i - 1]);
            assert(member_ok(n1, p, cs, i - 1));
            if k > 0 {
                assert(cs[i - 1] != cs[k - 1]);
            }
            if i - 1 == k {
                assert(cs2[i - 1] == cid);
            } else {
                assert(cs[i - 1] != cs[k]);
                assert(cs2[i - 1] == cs[i - 2]);
            }
            if i + 1 < cs2.len() {
                assert(cs2[i + 1] == cs[i]);
            }
        }
    }
    assert(cs2.no_duplicates()) by {
        assert forall|i: int, j: int| 0 <= i < j < cs2.len() implies cs2[i] != cs2[j] by {
            if i < k && j < k {
                assert(cs2[i] == cs[i] && cs2[j] == cs[j]);
            } else if i < k && j == k {
                assert(cs2[i] == cs[i]);
            } else if i < k {
                assert(cs2[i] == cs[i] && cs2[j] == cs[j - 1]);
            } else if i == k {
                assert(cs2[j] == cs[j - 1]);
            } else {
                assert(cs2[i] == cs[i - 1] && cs2[j] == cs[j - 1]);
            }
        }
    }
    if k > 0 {
        assert(cs2[0] == cs[0]);
    }
    if k < cs.len() {
        assert(cs2.last() == cs.last());
    }
}

proof fn lemma_insertion_list_other(
    n1: Seq<Node>,
    kids: Seq<Seq<NodeId>>,
    rank: Seq<nat>,
    n2: Seq<Node>,
    p: int,
    k: int,
    c: int,
    q: int,
)
    requires
        wf_parts(n1, kids, rank),
        0 <= p < n1.len(),
        0 <= q < n1.len(),
        q != p,
        0 < c < n1.len(),
        0 <= k <= kids[p].len(),
        parent_at(n1, c) is None,
        insertion_links(n1, n2, p, kids[p], k, c),
    ensures
        list_links_ok(n2, q, kids[q]),
{
    let cs = kids[p];
    let cq = kids[q];
    assert(list_links_ok(n1, p, cs));
    assert(list_links_ok(n1, q, cq));
    if k < cs.len() {
        assert(member_ok(n1, p, cs, k));
    }
    if k > 0 {
        assert(member_ok(n1, p, cs, k - 1));
    }
    assert forall|i: int| 0 <= i < cq.len() implies #[trigger] member_ok(n2, q, cq, i) by {
        assert(member_ok(n1, q, cq, i));
    }
}

proof fn lemma_insertion_parent_ok(
    n1: Seq<Node>,
    kids: Seq<Seq<NodeId>>,
    rank: Seq<nat>,
    n2: Seq<Node>,
    p: int,
    k: int,
    c: int,
    x: int,
)
    requires
        wf_parts(n1, kids, rank),
        0 <= p < n1.len(),
        0 <= x < n1.len(),
        0 < c < n1.len(),
        0 <= k <= kids[p].len(),
        parent_at(n1, c) is None,
        !anc(n1, c, p),
        insertion_links(n1, n2, p, kids[p], k, c),
    ensures
        parent_ok(
            n2,
            kids.update(p, kids[p].insert(k, NodeId(c as u32))),
            shifted_rank(n1, rank, c, p),
            x,
        ),
{
    let cs = kids[p];
    let cid = NodeId(c as u32);
    let cs2 = cs.insert(k, cid);
    let r2 = shifted_rank(n1, rank, c, p);
    assert(list_links_ok(n1, p, cs));
    assert(parent_ok(n1, kids, rank, x));
    if k < cs.len() {
        assert(member_ok(n1, p, cs, k));
    }
    if k > 0 {
        assert(member_ok(n1, p, cs, k - 1));
    }
    if x == c {
        assert(anc_within(n1, c, c, 0));
        assert(cs2[k] == cid);
    } else if let Some(q) = parent_at(n1, x) {
        lemma_anc_parent_iff(n1, c, x, q);
        if idx(q) == p {
            let j = choose|j: int| 0 <= j < cs.len() && cs[j] == NodeId(x as u32);
            if j < k {
                assert(cs2[j] == cs[j]);
            } else {
                assert(cs2[j + 1] == cs[j]);
            }
        }
    }
}

/// The position of the first attribute at or after `j` whose local name is `local`.
pub open spec fn first_attr(attrs: Seq<super::node::Attr>, local: Seq<char>, j: int) -> Option<int>
    decreases attrs.len() - j,
{
    if !(0 <= j < attrs.len()) {
        None
    } else if attrs[j].name.local@ == local {
        Some(j)
    } else {
        first_attr(attrs, local, j + 1)
    }
}

/// The position of `x` in `cs` (meaningful when `cs` contains `x`).
pub open spec fn pos_of(cs: Seq<NodeId>, x: NodeId) -> int {
    choose|k: int| 0 <= k < cs.len() && cs[k] == x
}

/// Two arenas whose nodes agree on every link are equally well formed.
proof fn lemma_same_links_wf(n1: Seq<Node>, n2: Seq<Node>, kids: Seq<Seq<NodeId>>, rank: Seq<nat>)
    requires
        wf_parts(n1, kids, rank),
        n1.len() == n2.len(),
        forall|x: int|
            0 <= x < n1.len() ==> {
                &&& #[trigger] parent_at(n2, x) == parent_at(n1, x)
                &&& prev_at(n2, x) == prev_at(n1, x)
                &&& next_at(n2, x) == next_at(n1, x)
                &&& first_at(n2, x) == first_at(n1, x)
                &&& last_at(n2, x) == last_at(n1, x)
            },
    ensures
        wf_parts(n2, kids, rank),
{
    assert forall|q: int| 0 <= q < n2.len() implies #[trigger] list_links_ok(n2, q, kids[q]) by {
        assert(list_links_ok(n1, q, kids[q]));
        assert(parent_at(n2, q) == parent_at(n1, q));
        assert forall|i: int| 0 <= i < kids[q].len() implies #[trigger] member_ok(n2, q, kids[q], i) by {
            assert(member_ok(n1, q, kids[q], i));
            assert(parent_at(n2, idx(kids[q][i])) == parent_at(n1, idx(kids[q][i])));
        }
    }
    assert forall|c: int| 0 <= c < n2.len() implies #[trigger] parent_ok(n2, kids, rank, c) by {
        assert(parent_ok(n1, kids, rank, c));
        assert(parent_at(n2, c) == parent_at(n1, c));
    }
    assert(parent_at(n2, 0) == parent_at(n1, 0));
}

/// An arena-backed DOM tree.
///
/// Arena index 0 always exists and is the root. Nodes are never freed: detaching a node
/// unlinks it but keeps its slot (and its own subtree) alive and reachable by id.
pub struct Document {
    nodes: Vec<Node>,
    quirks: QuirksMode,
    base_url: String,
    kids: Ghost<Seq<Seq<NodeId>>>,
    rank: Ghost<Seq<nat>>,
    bound: Ghost<nat>,
}

impl Document {
    /// The tree invariant: every node's first/last-child links and every child's parent
    /// and sibling links agree with one child sequence per node, each child occurs in
    /// exactly its parent's sequence, and the parent relation is acyclic.
    pub closed spec fn wf(&self) -> bool {
        &&& wf_parts(self.nodes@, self.kids@, self.rank@)
        &&& forall|x: int| 0 <= x < self.rank@.len() ==> #[trigger] self.rank@[x] < self.bound@
    }

    /// A strict upper bound on every rank.
    pub closed spec fn rank_bound(&self) -> nat {
        self.bound@
    }

    /// The arena's nodes.
    pub closed spec fn spec_nodes(&self) -> Seq<Node> {
        self.nodes@
    }

    /// The number of nodes in the arena.
    pub open spec fn spec_len(&self) -> nat {
        self.spec_nodes().len()
    }

    /// Whether `id` names a node of this document.
    pub open spec fn valid(&self, id: NodeId) -> bool {
        idx(id) < self.spec_len()
    }

    /// The node `id` names.
    pub open spec fn node(&self, id: NodeId) -> Node {
        self.spec_nodes()[idx(id)]
    }

    /// The children of `id`, in document order.
    pub closed spec fn child_list(&self, id: NodeId) -> Seq<NodeId> {
        self.kids@[idx(id)]
    }

    /// The ghost rank of `id`: strictly smaller for a parent than for its children.
    pub closed spec fn rank_of(&self, id: NodeId) -> nat {
        self.rank@[idx(id)]
    }

    /// Whether `a` is `x` itself or one of its ancestors.
    pub open spec fn is_anc_or_self(&self, a: NodeId, x: NodeId) -> bool {
        anc(self.spec_nodes(), idx(a), idx(x))
    }

    /// The document's quirks mode.
    pub closed spec fn spec_quirks(&self) -> QuirksMode {
        self.quirks
    }

    /// The document's base URL.
    pub closed spec fn spec_base_url(&self) -> Seq<char> {
        self.base_url@
    }

    /// Every node keeps its kind between `self` and `other`, and the arena has the same
    /// length.
    pub open spec fn same_kinds(&self, other: &Document) -> bool {
        &&& self.spec_len() == other.spec_len()
        &&& forall|i: int|
            0 <= i < self.spec_len() ==> #[trigger] self.spec_nodes()[i].spec_kind()
                == other.spec_nodes()[i].spec_kind()
    }

    /// Quirks mode and base URL agree between `self` and `other`.
    pub open spec fn same_meta(&self, other: &Document) -> bool {
        &&& self.spec_quirks() == other.spec_quirks()
        &&& self.spec_base_url() == other.spec_base_url()
    }

    /// The child sequences of all nodes other than those in `except` agree.
    pub open spec fn same_lists_except(&self, other: &Document, except: Set<NodeId>) -> bool {
        forall|q: NodeId|
            self.valid(q) && !except.contains(q) ==> #[trigger] self.child_list(q)
                == other.child_list(q)
    }

    /// Creates a new document containing only its root node, in no-quirks mode.
    pub fn new(base_url: &str) -> (r: Document)
        ensures
            r.wf(),
            r.spec_len() == 1,
            r.node(NodeId(0)).detached(NodeKind::Document),
            r.child_list(NodeId(0)) == Seq::<NodeId>::empty(),
            r.spec_quirks() == QuirksMode::NoQuirks,
            r.spec_base_url() == base_url@,
    {
        let mut nodes: Vec<Node> = Vec::new();
        nodes.push(Node::new(NodeKind::Document));
        let ghost k: Seq<Seq<NodeId>> = seq![Seq::<NodeId>::empty()];
        let ghost rk: Seq<nat> = seq![0nat];
        let r = Document {
            nodes,
            quirks: QuirksMode::NoQuirks,
            base_url: base_url.to_owned(),
            kids: Ghost(k),
            rank: Ghost(rk),
            bound: Ghost(1nat),
        };
        assert(list_links_ok(r.nodes@, 0, r.kids@[0]));
        assert(parent_ok(r.nodes@, r.kids@, r.rank@, 0));
        r
    }

    /// The id of the document root: always arena index 0.
    pub fn root(&self) -> (r: NodeId)
        ensures
            r == NodeId(0),
    {
        NodeId(0)
    }

    /// Looks up a node by id: `None` if `id` is out of range.
    pub fn get(&self, id: NodeId) -> (r: Option<&Node>)
        ensures
            r == (if self.valid(id) {
                Some(&self.node(id))
            } else {
                None
            }),
    {
        let i = id.index();
        if i < self.nodes.len() {
            Some(&self.nodes[i])
        } else {
            None
        }
    }

    /// The number of nodes in the arena, detached ones included.
    pub fn len(&self) -> (r: usize)
        ensures
            r == self.spec_len(),
    {
        self.nodes.len()
    }

    /// Why attaching `child` under `parent` must be refused, checked in this order: an
    /// unknown `parent` or `child`, `child` being the root, `child` being `parent` or one
    /// of its ancestors, `child` already having a parent. `None` when it is allowed.
    pub open spec fn attach_error(&self, parent: NodeId, child: NodeId) -> Option<DomError> {
        if !self.valid(parent) {
            Some(DomError::NoSuchNode(parent))
        } else if !self.valid(child) {
            Some(DomError::NoSuchNode(child))
        } else if child == NodeId(0) {
            Some(DomError::IsDocument)
        } else if self.is_anc_or_self(child, parent) {
            Some(DomError::Cycle { ancestor: child, descendant: parent })
        } else if self.node(child).spec_parent() is Some {
            Some(DomError::NotDetached(child))
        } else {
            None
        }
    }

    /// Allocates a new, detached node holding `kind` and returns its id.
    ///
    /// When the arena already holds `u32::MAX` nodes nothing is allocated and the
    /// reserved id `u32::MAX`, which names no node, is returned.
    pub fn create(&mut self, kind: NodeKind) -> (r: NodeId)
        requires
            old(self).wf(),
        ensures
            final(self).wf(),
            final(self).same_meta(old(self)),
            old(self).spec_len() < u32::MAX ==> {
                &&& r == NodeId(old(self).spec_len() as u32)
                &&& final(self).spec_len() == old(self).spec_len() + 1
                &&& final(self).node(r).detached(kind)
                &&& final(self).child_list(r) == Seq::<NodeId>::empty()
                &&& forall|i: int|
                    0 <= i < old(self).spec_len() ==> #[trigger] final(self).spec_nodes()[i]
                        == old(self).spec_nodes()[i]
                &&& forall|q: NodeId| #[trigger]
                    old(self).valid(q) ==> final(self).child_list(q) == old(self).child_list(q)
            },
            old(self).spec_len() >= u32::MAX ==> r == NodeId(u32::MAX) && *final(self) == *old(
                self,
            ),
    {
        if self.nodes.len() >= u32::MAX as usize {
            return NodeId(u32::MAX);
        }
        let id = NodeId(self.nodes.len() as u32);
        let ghost n1 = self.nodes@;
        let ghost k1 = self.kids@;
        self.nodes.push(Node::new(kind));
        self.kids = Ghost(self.kids@.push(Seq::<NodeId>::empty()));
        self.rank = Ghost(self.rank@.push(0nat));
        proof {
            let n2 = self.nodes@;
            let k2 = self.kids@;
            let r2 = self.rank@;
            let x = n1.len() as int;
            assert forall|q: int| 0 <= q < n2.len() implies #[trigger] list_links_ok(n2, q, k2[q]) by {
                if q < x {
                    assert(list_links_ok(n1, q, k1[q]));
                    assert forall|i: int| 0 <= i < k2[q].len() implies #[trigger] member_ok(n2, q, k2[q], i) by {
                        assert(member_ok(n1, q, k1[q], i));
                    }
                }
            }
            assert forall|c: int| 0 <= c < n2.len() implies #[trigger] parent_ok(n2, k2, r2, c) by {
                if c < x {
                    assert(parent_ok(n1, k1, old(self).rank@, c));
                }
            }
            assert(old(self).rank@[0] < self.bound@);
            assert forall|c: int| 0 <= c < r2.len() implies #[trigger] r2[c] < self.bound@ by {
                if c < x {
                    assert(old(self).rank@[c] < self.bound@);
                }
            }
        }
        id
    }

    /// Whether `candidate` is `node` itself or one of its ancestors, found by walking
    /// `node`'s parent chain (which terminates: ranks strictly decrease along it).
    fn is_ancestor_or_self(&self, candidate: NodeId, node: NodeId) -> (r: bool)
        requires
            self.wf(),
            self.valid(node),
        ensures
            r == self.is_anc_or_self(candidate, node),
    {
        let mut cur = node;
        loop
            invariant
                self.wf(),
                self.valid(cur),
                self.is_anc_or_self(candidate, node) == self.is_anc_or_self(candidate, cur),
            decreases self.rank@[idx(cur)],
        {
            if cur == candidate {
                assert(anc_within(self.nodes@, idx(candidate), idx(cur), 0));
                return true;
            }
            proof {
                assert(parent_ok(self.nodes@, self.kids@, self.rank@, idx(cur)));
            }
            match self.nodes[cur.index()].parent {
                Some(p) => {
                    proof {
                        lemma_anc_parent_iff(self.nodes@, idx(candidate), idx(cur), p);
                    }
                    cur = p;
                },
                None => {
                    proof {
                        if anc(self.nodes@, idx(candidate), idx(cur)) {
                            let f = choose|f: nat| anc_within(self.nodes@, idx(candidate), idx(cur), f);
                            assert(anc_within(self.nodes@, idx(candidate), idx(cur), f));
                        }
                    }
                    return false;
                },
            }
        }
    }

    /// Validates that `child` may be attached under `parent`: see
    /// [`Document::attach_error`] for the checks and their order.
    fn check_attach(&self, parent: NodeId, child: NodeId) -> (r: Result<(), DomError>)
        requires
            self.wf(),
        ensures
            r == (match self.attach_error(parent, child) {
                Some(e) => Err(e),
                None => Ok(()),
            }),
    {
        if parent.index() >= self.nodes.len() {
            return Err(DomError::NoSuchNode(parent));
        }
        if child.index() >= self.nodes.len() {
            return Err(DomError::NoSuchNode(child));
        }
        if child == self.root() {
            return Err(DomError::IsDocument);
        }
        if self.is_ancestor_or_self(child, parent) {
            return Err(DomError::Cycle { ancestor: child, descendant: parent });
        }
        if self.nodes[child.index()].parent.is_some() {
            return Err(DomError::NotDetached(child));
        }
        Ok(())
    }

    /// Removes `id` from its parent's child list, linking its former neighbours to each
    /// other; `id` keeps its own children. A no-op if `id` has no parent.
    fn unlink(&mut self, id: NodeId)
        requires
            old(self).wf(),
            old(self).valid(id),
        ensures
            final(self).wf(),
            final(self).rank@ == old(self).rank@,
            final(self).bound@ == old(self).bound@,
            final(self).quirks == old(self).quirks,
            final(self).base_url == old(self).base_url,
            parent_at(final(self).nodes@, idx(id)) is None,
            match parent_at(old(self).nodes@, idx(id)) {
                None => *final(self) == *old(self),
                Some(p) => {
                    &&& removal_links(
                        old(self).nodes@,
                        final(self).nodes@,
                        idx(p),
                        old(self).kids@[idx(p)],
                        pos_of(old(self).kids@[idx(p)], id),
                    )
                    &&& final(self).kids@ == old(self).kids@.update(
                        idx(p),
                        old(self).kids@[idx(p)].remove(pos_of(old(self).kids@[idx(p)], id)),
                    )
                },
            },
    {
        let i = id.index();
        let parent = self.nodes[i].parent;
        match parent {
            None => {},
            Some(p) => {
                let prev = self.nodes[i].prev_sibling;
                let next = self.nodes[i].next_sibling;
                let ghost n1 = self.nodes@;
                let ghost k1 = self.kids@;
                let ghost pi = idx(p);
                let ghost cs = k1[pi];
                let ghost k = pos_of(cs, id);
                proof {
                    assert(parent_ok(n1, k1, self.rank@, idx(id)));
                    assert(list_links_ok(n1, pi, cs));
                    assert(member_ok(n1, pi, cs, k));
                    if k > 0 {
                        assert(member_ok(n1, pi, cs, k - 1));
                        assert(parent_ok(n1, k1, self.rank@, idx(cs[k - 1])));
                    }
                    if k + 1 < cs.len() {
                        assert(member_ok(n1, pi, cs, k + 1));
                        assert(parent_ok(n1, k1, self.rank@, idx(cs[k + 1])));
                    }
                }
                match prev {
                    Some(pv) => {
                        self.nodes[pv.index()].next_sibling = next;
                    },
                    None => {
                        self.nodes[p.index()].first_child = next;
                    },
                }
                match next {
                    Some(nx) => {
                        self.nodes[nx.index()].prev_sibling = prev;
                    },
                    None => {
                        self.nodes[p.index()].last_child = prev;
                    },
                }
                self.nodes[i].parent = None;
                self.nodes[i].prev_sibling = None;
                self.nodes[i].next_sibling = None;
                proof {
                    let n2 = self.nodes@;
                    assert(removal_links(n1, n2, pi, cs, k));
                    lemma_removal_wf(n1, k1, self.rank@, n2, pi, k);
                }
                self.kids = Ghost(self.kids@.update(pi, cs.remove(k)));
            },
        }
    }

    /// Links the detached, non-root node `child` as `parent`'s new last child.
    fn link_last(&mut self, parent: NodeId, child: NodeId)
        requires
            old(self).wf(),
            old(self).valid(parent),
            old(self).valid(child),
            child != NodeId(0),
            parent_at(old(self).nodes@, idx(child)) is None,
            !anc(old(self).nodes@, idx(child), idx(parent)),
        ensures
            final(self).wf(),
            final(self).quirks == old(self).quirks,
            final(self).base_url == old(self).base_url,
            insertion_links(
                old(self).nodes@,
                final(self).nodes@,
                idx(parent),
                old(self).kids@[idx(parent)],
                old(self).kids@[idx(parent)].len() as int,
                idx(child),
            ),
            final(self).kids@ == old(self).kids@.update(
                idx(parent),
                old(self).kids@[idx(parent)].push(child),
            ),
    {
        let ghost n1 = self.nodes@;
        let ghost k1 = self.kids@;
        let ghost pi = idx(parent);
        let ghost ci = idx(child);
        let ghost cs = k1[pi];
        let old_last = self.nodes[parent.index()].last_child;
        proof {
            assert(list_links_ok(n1, pi, cs));
            assert(anc_within(n1, ci, ci, 0));
            if cs.len() > 0 {
                assert(member_ok(n1, pi, cs, cs.len() - 1));
                assert(parent_ok(n1, k1, self.rank@, idx(cs.last())));
            }
        }
        self.nodes[child.index()].parent = Some(parent);
        self.nodes[child.index()].prev_sibling = old_last;
        self.nodes[child.index()].next_sibling = None;
        match old_last {
            Some(l) => {
                self.nodes[l.index()].next_sibling = Some(child);
            },
            None => {
                self.nodes[parent.index()].first_child = Some(child);
            },
        }
        self.nodes[parent.index()].last_child = Some(child);
        proof {
            let n2 = self.nodes@;
            let k = cs.len() as int;
            assert(insertion_links(n1, n2, pi, cs, k, ci));
            lemma_insertion_wf(n1, k1, self.rank@, n2, pi, k, ci);
            assert(cs.insert(k, NodeId(ci as u32)) =~= cs.push(child));
        }
        self.kids = Ghost(self.kids@.update(idx(parent), cs.push(child)));
        proof {
            let r1 = self.rank@;
            let r2 = shifted_rank(n1, r1, ci, pi);
            let b = self.bound@;
            assert(r1[pi] < b);
            assert forall|x: int| 0 <= x < r2.len() implies #[trigger] r2[x] < 2 * b by {
                assert(r1[x] < b);
            }
        }
        self.rank = Ghost(shifted_rank(n1, self.rank@, ci, pi));
        self.bound = Ghost(2 * self.bound@);
    }

    /// Links the detached, non-root node `new` immediately before `sibling`, one of
    /// `parent`'s children.
    fn link_before(&mut self, parent: NodeId, sibling: NodeId, new: NodeId)
        requires
            old(self).wf(),
            old(self).valid(parent),
            old(self).valid(new),
            old(self).valid(sibling),
            parent_at(old(self).nodes@, idx(sibling)) == Some(parent),
            new != NodeId(0),
            parent_at(old(self).nodes@, idx(new)) is None,
            !anc(old(self).nodes@, idx(new), idx(parent)),
        ensures
            final(self).wf(),
            final(self).quirks == old(self).quirks,
            final(self).base_url == old(self).base_url,
            insertion_links(
                old(self).nodes@,
                final(self).nodes@,
                idx(parent),
                old(self).kids@[idx(parent)],
                pos_of(old(self).kids@[idx(parent)], sibling),
                idx(new),
            ),
            final(self).kids@ == old(self).kids@.update(
                idx(parent),
                old(self).kids@[idx(parent)].insert(pos_of(old(self).kids@[idx(parent)], sibling), new),
            ),
    {
        let ghost n1 = self.nodes@;
        let ghost k1 = self.kids@;
        let ghost pi = idx(parent);
        let ghost ci = idx(new);
        let ghost cs = k1[pi];
        let ghost k = pos_of(cs, sibling);
        let old_prev = self.nodes[sibling.index()].prev_sibling;
        proof {
            assert(parent_ok(n1, k1, self.rank@, idx(sibling)));
            assert(list_links_ok(n1, pi, cs));
            assert(member_ok(n1, pi, cs, k));
            assert(anc_within(n1, ci, ci, 0));
            if k > 0 {
                assert(member_ok(n1, pi, cs, k - 1));
                assert(parent_ok(n1, k1, self.rank@, idx(cs[k - 1])));
            }
        }
        self.nodes[new.index()].parent = Some(parent);
        self.nodes[new.index()].prev_sibling = old_prev;
        self.nodes[new.index()].next_sibling = Some(sibling);
        match old_prev {
            Some(pr) => {
                self.nodes[pr.index()].next_sibling = Some(new);
            },
            None => {
                self.nodes[parent.index()].first_child = Some(new);
            },
        }
        self.nodes[sibling.index()].prev_sibling = Some(new);
        proof {
            let n2 = self.nodes@;
            assert(insertion_links(n1, n2, pi, cs, k, ci));
            lemma_insertion_wf(n1, k1, self.rank@, n2, pi, k, ci);
        }
        self.kids = Ghost(self.kids@.update(pi, cs.insert(k, new)));
        proof {
            let r1 = self.rank@;
            let r2 = shifted_rank(n1, r1, ci, pi);
            let b = self.bound@;
            assert(r1[pi] < b);
            assert forall|x: int| 0 <= x < r2.len() implies #[trigger] r2[x] < 2 * b by {
                assert(r1[x] < b);
            }
        }
        self.rank = Ghost(shifted_rank(n1, self.rank@, ci, pi));
        self.bound = Ghost(2 * self.bound@);
    }

    /// Appends `child` as `parent`'s new last child.
    ///
    /// Refused, without changing anything, in the cases [`Document::attach_error`]
    /// lists, in its order.
    pub fn append_child(&mut self, parent: NodeId, child: NodeId) -> (r: Result<(), DomError>)
        requires
            old(self).wf(),
        ensures
            final(self).wf(),
            append_result(*old(self), *final(self), parent, child),
            match old(self).attach_error(parent, child) {
                Some(e) => r == Err::<(), DomError>(e) && *final(self) == *old(self),
                None => {
                    &&& r is Ok
                    &&& final(self).same_kinds(old(self))
                    &&& final(self).same_meta(old(self))
                    &&& final(self).child_list(parent) == old(self).child_list(parent).push(child)
                    &&& final(self).same_lists_except(old(self), set![parent])
                    &&& final(self).node(child).spec_parent() == Some(parent)
                },
            },
    {
        match self.check_attach(parent, child) {
            Err(e) => Err(e),
            Ok(()) => {
                let ghost old_doc = *self;
                self.link_last(parent, child);
                proof {
                    assert(self.same_kinds(&old_doc));
                    assert forall|q: NodeId| self.valid(q) && !set![parent].contains(q) implies #[trigger] self.child_list(q)
                        == old_doc.child_list(q) by {
                        assert(q.0 != parent.0);
                    }
                    assert(parent_at(self.nodes@, idx(child)) == Some(parent));
                }
                Ok(())
            },
        }
    }

    /// Why inserting `new` before `sibling` must be refused: an unknown `new`, an unknown
    /// `sibling`, a `sibling` with no parent to insert under, then the checks of
    /// [`Document::attach_error`] for `new` under that parent. `None` when it is allowed.
    pub open spec fn insert_error(&self, sibling: NodeId, new: NodeId) -> Option<DomError> {
        if !self.valid(new) {
            Some(DomError::NoSuchNode(new))
        } else if !self.valid(sibling) {
            Some(DomError::NoSuchNode(sibling))
        } else {
            match self.node(sibling).spec_parent() {
                None => Some(DomError::IsDocument),
                Some(p) => self.attach_error(p, new),
            }
        }
    }

    /// Inserts `new` immediately before `sibling`, under `sibling`'s current parent.
    pub fn insert_before(&mut self, sibling: NodeId, new: NodeId) -> (r: Result<(), DomError>)
        requires
            old(self).wf(),
        ensures
            final(self).wf(),
            match old(self).insert_error(sibling, new) {
                Some(e) => r == Err::<(), DomError>(e) && *final(self) == *old(self),
                None => {
                    let p = old(self).node(sibling).spec_parent().unwrap();
                    &&& r is Ok
                    &&& final(self).same_kinds(old(self))
                    &&& final(self).same_meta(old(self))
                    &&& final(self).child_list(p) == old(self).child_list(p).insert(
                        pos_of(old(self).child_list(p), sibling),
                        new,
                    )
                    &&& final(self).same_lists_except(old(self), set![p])
                    &&& final(self).node(new).spec_parent() == Some(p)
                },
            },
    {
        if new.index() >= self.nodes.len() {
            return Err(DomError::NoSuchNode(new));
        }
        if sibling.index() >= self.nodes.len() {
            return Err(DomError::NoSuchNode(sibling));
        }
        let parent = match self.nodes[sibling.index()].parent {
            Some(p) => p,
            None => {
                return Err(DomError::IsDocument);
            },
        };
        proof {
            assert(parent_ok(self.nodes@, self.kids@, self.rank@, idx(sibling)));
        }
        match self.check_attach(parent, new) {
            Err(e) => Err(e),
            Ok(()) => {
                let ghost old_doc = *self;
                self.link_before(parent, sibling, new);
                proof {
                    assert(self.same_kinds(&old_doc));
                    assert forall|q: NodeId| self.valid(q) && !set![parent].contains(q) implies #[trigger] self.child_list(q)
                        == old_doc.child_list(q) by {
                        assert(q.0 != parent.0);
                    }
                    assert(parent_at(self.nodes@, idx(new)) == Some(parent));
                }
                Ok(())
            },
        }
    }

    /// Detaches `id` from its parent and siblings, if it has any; its own children move
    /// with it. Detaching a node that has no parent (the root, or an already detached
    /// node) changes nothing. Only an unknown `id` is refused.
    pub fn detach(&mut self, id: NodeId) -> (r: Result<(), DomError>)
        requires
            old(self).wf(),
        ensures
            final(self).wf(),
            detach_result(*old(self), *final(self), id),
            !old(self).valid(id) ==> r == Err::<(), DomError>(DomError::NoSuchNode(id))
                && *final(self) == *old(self),
            old(self).valid(id) ==> {
                &&& r is Ok
                &&& final(self).same_kinds(old(self))
                &&& final(self).same_meta(old(self))
                &&& final(self).node(id).spec_parent() is None
                &&& match old(self).node(id).spec_parent() {
                    None => *final(self) == *old(self),
                    Some(p) => {
                        &&& final(self).child_list(p) == old(self).child_list(p).remove(
                            pos_of(old(self).child_list(p), id),
                        )
                        &&& final(self).same_lists_except(old(self), set![p])
                    },
                }
            },
    {
        if id.index() >= self.nodes.len() {
            return Err(DomError::NoSuchNode(id));
        }
        let ghost old_doc = *self;
        self.unlink(id);
        proof {
            assert(parent_at(self.nodes@, idx(id)) is None);
            if let Some(p) = parent_at(old_doc.nodes@, idx(id)) {
                let cs = old_doc.kids@[idx(p)];
                assert(parent_ok(old_doc.nodes@, old_doc.kids@, old_doc.rank@, idx(id)));
                assert(self.kids@ == old_doc.kids@.update(idx(p), cs.remove(pos_of(cs, id))));
                assert(self.same_kinds(&old_doc));
                assert forall|q: NodeId| self.valid(q) && !set![p].contains(q) implies #[trigger] self.child_list(q)
                    == old_doc.child_list(q) by {
                    assert(q.0 != p.0);
                    assert(self.kids@[idx(q)] == old_doc.kids@[idx(q)]);
                }
            }
        }
        Ok(())
    }

    /// Why moving `from`'s children under `to` must be refused: an unknown `from`, an
    /// unknown `to`, or (for distinct nodes) `from` being `to` or one of its ancestors.
    pub open spec fn reparent_error(&self, from: NodeId, to: NodeId) -> Option<DomError> {
        if !self.valid(from) {
            Some(DomError::NoSuchNode(from))
        } else if !self.valid(to) {
            Some(DomError::NoSuchNode(to))
        } else if from != to && self.is_anc_or_self(from, to) {
            Some(DomError::Cycle { ancestor: from, descendant: to })
        } else {
            None
        }
    }

    /// Moves all of `from`'s children, in order, to become `to`'s last children; `from`
    /// ends up with none. Changes nothing when `from == to`.
    pub fn reparent_children(&mut self, from: NodeId, to: NodeId) -> (r: Result<(), DomError>)
        requires
            old(self).wf(),
        ensures
            final(self).wf(),
            reparent_result(*old(self), *final(self), from, to),
            match old(self).reparent_error(from, to) {
                Some(e) => r == Err::<(), DomError>(e) && *final(self) == *old(self),
                None => {
                    &&& r is Ok
                    &&& from == to ==> *final(self) == *old(self)
                    &&& from != to ==> {
                        &&& final(self).same_kinds(old(self))
                        &&& final(self).same_meta(old(self))
                        &&& final(self).child_list(to) == old(self).child_list(to)
                            + old(self).child_list(from)
                        &&& final(self).child_list(from) == Seq::<NodeId>::empty()
                        &&& final(self).same_lists_except(old(self), set![from, to])
                    }
                },
            },
    {
        if from.index() >= self.nodes.len() {
            return Err(DomError::NoSuchNode(from));
        }
        if to.index() >= self.nodes.len() {
            return Err(DomError::NoSuchNode(to));
        }
        if from == to {
            return Ok(());
        }
        if self.is_ancestor_or_self(from, to) {
            return Err(DomError::Cycle { ancestor: from, descendant: to });
        }
        let ghost orig = *self;
        let ghost orig_from = self.kids@[idx(from)];
        let ghost orig_to = self.kids@[idx(to)];
        let ghost mut m: int = 0;
        let mut next = self.nodes[from.index()].first_child;
        proof {
            assert(list_links_ok(self.nodes@, idx(from), self.kids@[idx(from)]));
            assert(orig_to + orig_from.subrange(0, 0) =~= orig_to);
            assert(orig_from.subrange(0, orig_from.len() as int) =~= orig_from);
        }
        while next.is_some()
            invariant
                self.wf(),
                self.valid(from),
                self.valid(to),
                from != to,
                !self.is_anc_or_self(from, to),
                self.same_kinds(&orig),
                self.same_meta(&orig),
                0 <= m <= orig_from.len(),
                self.kids@[idx(to)] == orig_to + orig_from.subrange(0, m),
                self.kids@[idx(from)] == orig_from.subrange(m, orig_from.len() as int),
                self.same_lists_except(&orig, set![from, to]),
                next == first_at(self.nodes@, idx(from)),
            decreases orig_from.len() - m,
        {
            let child = next.unwrap();
            let ghost d0 = *self;
            let ghost n0 = self.nodes@;
            let ghost k0 = self.kids@;
            proof {
                assert(list_links_ok(n0, idx(from), k0[idx(from)]));
                assert(member_ok(n0, idx(from), k0[idx(from)], 0));
                assert(k0[idx(from)][0] == orig_from[m]);
                assert(parent_ok(n0, k0, self.rank@, 0));
                assert(pos_of(k0[idx(from)], child) == 0) by {
                    let j = pos_of(k0[idx(from)], child);
                    assert(k0[idx(from)][j] == child);
                }
            }
            self.unlink(child);
            let ghost n1 = self.nodes@;
            proof {
                if anc(n1, idx(child), idx(to)) {
                    let f = choose|f: nat| anc_within(n1, idx(child), idx(to), f);
                    lemma_anc_frame(n0, n1, idx(child), idx(child), idx(to), f);
                    lemma_anc_extend_target(n0, idx(child), from, idx(to), f);
                    assert(anc_within(n0, idx(from), idx(to), f + 1));
                }
            }
            self.link_last(to, child);
            proof {
                let n2 = self.nodes@;
                if anc(n2, idx(from), idx(to)) {
                    let f = choose|f: nat| anc_within(n2, idx(from), idx(to), f);
                    lemma_anc_frame(n1, n2, idx(child), idx(from), idx(to), f);
                    lemma_anc_frame(n0, n1, idx(child), idx(from), idx(to), f);
                    assert(anc_within(n0, idx(from), idx(to), f));
                }
                assert(k0[idx(from)].remove(0) =~= orig_from.subrange(m + 1, orig_from.len() as int));
                assert(orig_to + orig_from.subrange(0, m) + seq![child] =~= orig_to
                    + orig_from.subrange(0, m + 1));
                assert((orig_to + orig_from.subrange(0, m)).push(child) =~= orig_to
                    + orig_from.subrange(0, m) + seq![child]);
                assert forall|q: NodeId| self.valid(q) && !set![from, to].contains(q) implies #[trigger] self.child_list(q)
                    == orig.child_list(q) by {
                    assert(q.0 != from.0 && q.0 != to.0);
                    assert(self.child_list(q) == d0.child_list(q));
                    assert(d0.child_list(q) == orig.child_list(q));
                }
                m = m + 1;
            }
            next = self.nodes[from.index()].first_child;
        }
        proof {
            assert(list_links_ok(self.nodes@, idx(from), self.kids@[idx(from)]));
            assert(m == orig_from.len());
            assert(orig_from.subrange(0, m) =~= orig_from);
            assert(self.kids@[idx(from)] =~= Seq::<NodeId>::empty());
        }
        Ok(())
    }

    /// The document's quirks mode.
    pub fn quirks_mode(&self) -> (r: QuirksMode)
        ensures
            r == self.spec_quirks(),
    {
        self.quirks
    }

    /// Sets the document's quirks mode.
    pub fn set_quirks_mode(&mut self, q: QuirksMode)
        requires
            old(self).wf(),
        ensures
            final(self).wf(),
            final(self).spec_quirks() == q,
            final(self).spec_base_url() == old(self).spec_base_url(),
            final(self).spec_nodes() == old(self).spec_nodes(),
            forall|x: NodeId| #[trigger] final(self).child_list(x) == old(self).child_list(x),
    {
        self.quirks = q;
    }

    /// The document's base URL.
    pub fn base_url(&self) -> (r: &str)
        ensures
            r@ == self.spec_base_url(),
    {
        self.base_url.as_str()
    }

    /// `id`'s element data, or `None` if `id` is unknown or not an element node.
    pub fn element(&self, id: NodeId) -> (r: Option<&Element>)
        ensures
            r == (if self.valid(id) {
                match self.node(id).spec_kind() {
                    NodeKind::Element(e) => Some(&e),
                    _ => None,
                }
            } else {
                None
            }),
    {
        match self.get(id) {
            None => None,
            Some(node) => match &node.kind {
                NodeKind::Element(element) => Some(element),
                _ => None,
            },
        }
    }

    /// The value of `id`'s first attribute whose local name is `local` (in any namespace),
    /// or `None` if `id` is unknown, not an element, or has no such attribute.
    pub fn attr(&self, id: NodeId, local: &str) -> (r: Option<&str>)
        ensures
            r matches Some(v) ==> (self.valid(id) && self.node(id).spec_kind() is Element && (
            first_attr(self.node(id).spec_kind()->Element_0.attrs@, local@, 0) matches Some(i)
                && v@ == self.node(id).spec_kind()->Element_0.attrs@[i].value@)),
            r is None ==> !self.valid(id) || !(self.node(id).spec_kind() is Element) || first_attr(
                self.node(id).spec_kind()->Element_0.attrs@,
                local@,
                0,
            ) is None,
    {
        let element = match self.element(id) {
            None => {
                return None;
            },
            Some(e) => e,
        };
        let mut i: usize = 0;
        while i < element.attrs.len()
            invariant
                i <= element.attrs@.len(),
                first_attr(element.attrs@, local@, i as int) == first_attr(element.attrs@, local@, 0),
                self.valid(id),
                self.node(id).spec_kind() is Element,
                self.node(id).spec_kind()->Element_0 == *element,
            decreases element.attrs.len() - i,
        {
            if crate::strutil::same_str(element.attrs[i].name.local.as_str(), local) {
                return Some(element.attrs[i].value.as_str());
            }
            i += 1;
        }
        None
    }

    /// Replaces the kind-specific data of `id` (its element name and attributes, its
    /// text, ...), leaving every tree link as it was. Returns whether `id` names a node;
    /// nothing changes when it does not.
    pub fn set_kind(&mut self, id: NodeId, kind: NodeKind) -> (r: bool)
        requires
            old(self).wf(),
        ensures
            final(self).wf(),
            r == old(self).valid(id),
            !r ==> *final(self) == *old(self),
            r ==> {
                &&& final(self).spec_len() == old(self).spec_len()
                &&& final(self).node(id).spec_kind() == kind
                &&& forall|i: int|
                    0 <= i < old(self).spec_len() && i != idx(id)
                        ==> #[trigger] final(self).spec_nodes()[i] == old(self).spec_nodes()[i]
                &&& final(self).same_meta(old(self))
                &&& forall|x: NodeId| #[trigger] final(self).child_list(x) == old(self).child_list(x)
                &&& forall|x: int|
                    #![trigger final(self).spec_nodes()[x]]
                    0 <= x < old(self).spec_len() ==> {
                        &&& parent_at(final(self).spec_nodes(), x) == parent_at(old(self).spec_nodes(), x)
                        &&& prev_at(final(self).spec_nodes(), x) == prev_at(old(self).spec_nodes(), x)
                        &&& next_at(final(self).spec_nodes(), x) == next_at(old(self).spec_nodes(), x)
                        &&& first_at(final(self).spec_nodes(), x) == first_at(old(self).spec_nodes(), x)
                        &&& last_at(final(self).spec_nodes(), x) == last_at(old(self).spec_nodes(), x)
                    }
            },
    {
        if id.index() >= self.nodes.len() {
            return false;
        }
        let ghost n1 = self.nodes@;
        self.nodes[id.index()].kind = kind;
        proof {
            lemma_same_links_wf(n1, self.nodes@, self.kids@, self.rank@);
        }
        true
    }

    /// The pre-order walk of the subtrees rooted at `cs`, in order: each node is
    /// followed by its own descendants before its next sibling. Only nodes whose rank
    /// lies in `[lo, rank_bound)` are descended into, which makes the definition total;
    /// in a well-formed document every child qualifies.
    pub open spec fn forest(&self, cs: Seq<NodeId>, lo: nat) -> Seq<NodeId>
        decreases self.rank_bound() - lo, cs.len(),
    {
        if cs.len() == 0 {
            Seq::<NodeId>::empty()
        } else {
            let c = cs[0];
            let head = if lo <= self.rank_of(c) && self.rank_of(c) < self.rank_bound() {
                self.subtree(c)
            } else {
                seq![c]
            };
            head + self.forest(cs.drop_first(), lo)
        }
    }

    /// `c` followed by the pre-order walk of its descendants.
    pub open spec fn subtree(&self, c: NodeId) -> Seq<NodeId>
        decreases self.rank_bound() - self.rank_of(c), 0nat,
    {
        if self.rank_of(c) < self.rank_bound() {
            seq![c] + self.forest(self.child_list(c), self.rank_of(c) + 1)
        } else {
            seq![c]
        }
    }

    /// `x`'s descendants in pre-order (document order), `x` itself excluded.
    pub open spec fn descendants_spec(&self, x: NodeId) -> Seq<NodeId> {
        self.forest(self.child_list(x), self.rank_of(x) + 1)
    }

    /// `x`'s parent, grandparent, and so on up to the root.
    pub open spec fn ancestors_spec(&self, x: NodeId) -> Seq<NodeId>
        decreases self.rank_of(x),
    {
        match self.node(x).spec_parent() {
            Some(p) => if self.rank_of(p) < self.rank_of(x) {
                seq![p] + self.ancestors_spec(p)
            } else {
                Seq::<NodeId>::empty()
            },
            None => Seq::<NodeId>::empty(),
        }
    }

    /// Whether the arena has no nodes at all; never true for a well-formed document.
    pub fn is_empty(&self) -> (r: bool)
        ensures
            r == (self.spec_len() == 0),
    {
        self.nodes.len() == 0
    }
}


/// `after` is `before` after [`Document::append_child`] of `child` under `parent`: unchanged
/// when refused, else `child` is `parent`'s new last child and nothing else moved.
pub open spec fn append_result(before: Document, after: Document, parent: NodeId, child: NodeId) -> bool {
    &&& after.wf()
    &&& before.attach_error(parent, child) is Some ==> after == before
    &&& before.attach_error(parent, child) is None ==> {
        &&& after.same_kinds(&before)
        &&& after.same_meta(&before)
        &&& after.child_list(parent) == before.child_list(parent).push(child)
        &&& after.same_lists_except(&before, set![parent])
        &&& after.node(child).spec_parent() == Some(parent)
    }
}

/// `after` is `before` after [`Document::detach`] of `id`: `id` has no parent and its old
/// parent's list lost it; nothing else changed.
pub open spec fn detach_result(before: Document, after: Document, id: NodeId) -> bool {
    &&& after.wf()
    &&& !before.valid(id) ==> after == before
    &&& before.valid(id) ==> {
        &&& after.same_kinds(&before)
        &&& after.same_meta(&before)
        &&& after.node(id).spec_parent() is None
        &&& match before.node(id).spec_parent() {
            None => after == before,
            Some(p) => {
                &&& after.child_list(p) == before.child_list(p).remove(pos_of(before.child_list(p), id))
                &&& after.same_lists_except(&before, set![p])
            },
        }
    }
}

/// `after` is `before` after [`Document::reparent_children`] from `from` to `to`:
/// unchanged when refused or when `from == to`; else `from`'s children, in order, follow
/// `to`'s own, `from` has none left, and nothing else changed.
pub open spec fn reparent_result(before: Document, after: Document, from: NodeId, to: NodeId) -> bool {
    &&& after.wf()
    &&& before.reparent_error(from, to) is Some || from == to ==> after == before
    &&& before.reparent_error(from, to) is None && from != to ==> {
        &&& after.same_kinds(&before)
        &&& after.same_meta(&before)
        &&& after.child_list(to) == before.child_list(to) + before.child_list(from)
        &&& after.child_list(from) == Seq::<NodeId>::empty()
        &&& after.same_lists_except(&before, set![from, to])
    }
}

/// Detaching a node twice leaves the document as detaching it once did.
pub proof fn lemma_detach_idempotent(d0: Document, d1: Document, d2: Document, id: NodeId)
    requires
        detach_result(d0, d1, id),
        detach_result(d1, d2, id),
    ensures
        d2 == d1,
{
}

/// Detaching a node right after appending it undoes the append: every child list is as it
/// was, the kinds are unchanged, and the node has no parent again.
pub proof fn lemma_detach_undoes_append(d0: Document, d1: Document, d2: Document, parent: NodeId, child: NodeId)
    requires
        d0.wf(),
        d0.attach_error(parent, child) is None,
        append_result(d0, d1, parent, child),
        detach_result(d1, d2, child),
    ensures
        d2.same_kinds(&d0),
        d2.same_meta(&d0),
        forall|q: NodeId| d0.valid(q) ==> #[trigger] d2.child_list(q) == d0.child_list(q),
        d2.node(child).spec_parent() is None,
{
    lemma_child_links(&d0, parent);
    lemma_child_links(&d1, parent);
    let old_list = d0.child_list(parent);
    let new_list = d1.child_list(parent);
    assert(!old_list.contains(child)) by {
        if old_list.contains(child) {
            let k = choose|k: int| 0 <= k < old_list.len() && old_list[k] == child;
            assert(member_ok(d0.spec_nodes(), idx(parent), old_list, k));
        }
    }
    assert(new_list == old_list.push(child));
    assert(new_list[old_list.len() as int] == child);
    assert(pos_of(new_list, child) == old_list.len()) by {
        let k = pos_of(new_list, child);
        assert(0 <= k < new_list.len() && new_list[k] == child);
        if k != old_list.len() {
            assert(new_list.no_duplicates());
        }
    }
    assert(new_list.remove(old_list.len() as int) =~= old_list);
}

/// The tree invariant, read per node: in a well-formed document the first/last-child
/// links of `p` and the parent/sibling links of each of its children agree with its
/// child sequence, which names distinct, existing nodes whose ranks lie strictly between
/// `p`'s rank and the rank bound.
pub proof fn lemma_child_links(doc: &Document, p: NodeId)
    requires
        doc.wf(),
        doc.valid(p),
    ensures
        list_links_ok(doc.spec_nodes(), idx(p), doc.child_list(p)),
        forall|i: int|
            0 <= i < doc.child_list(p).len() ==> {
                &&& doc.valid(#[trigger] doc.child_list(p)[i])
                &&& doc.rank_of(p) < doc.rank_of(doc.child_list(p)[i])
                &&& doc.rank_of(doc.child_list(p)[i]) < doc.rank_bound()
            },
{
    let cs = doc.child_list(p);
    assert(list_links_ok(doc.nodes@, idx(p), cs));
    assert forall|i: int| 0 <= i < cs.len() implies {
        &&& doc.valid(#[trigger] cs[i])
        &&& doc.rank_of(p) < doc.rank_of(cs[i])
        &&& doc.rank_of(cs[i]) < doc.rank_bound()
    } by {
        assert(member_ok(doc.nodes@, idx(p), cs, i));
        assert(parent_ok(doc.nodes@, doc.kids@, doc.rank@, idx(cs[i])));
        assert(doc.rank@[idx(cs[i])] < doc.bound@);
    }
}

/// The tree invariant, read per child: a node's parent exists, lists it among its
/// children and ranks below it; a node without a parent has no siblings; the root never
/// has a parent; and no id at or past `u32::MAX` names a node.
pub proof fn lemma_parent_link(doc: &Document, c: NodeId)
    requires
        doc.wf(),
        doc.valid(c),
    ensures
        doc.spec_len() <= u32::MAX,
        doc.rank_of(c) < doc.rank_bound(),
        doc.node(NodeId(0)).spec_parent() is None,
        match doc.node(c).spec_parent() {
            Some(q) => {
                &&& doc.valid(q)
                &&& doc.child_list(q).contains(c)
                &&& doc.rank_of(q) < doc.rank_of(c)
            },
            None => {
                &&& doc.node(c).spec_prev_sibling() is None
                &&& doc.node(c).spec_next_sibling() is None
            },
        },
{
    assert(parent_ok(doc.nodes@, doc.kids@, doc.rank@, idx(c)));
    assert(doc.rank@[idx(c)] < doc.bound@);
    assert(NodeId(c.0 as u32) == c);
}

/// Reaching `a` by parent links from `x` never decreases the rank.
proof fn lemma_anc_rank(doc: &Document, a: int, x: int, f: nat)
    requires
        doc.wf(),
        0 <= a < doc.spec_len(),
        0 <= x < doc.spec_len(),
        anc_within(doc.nodes@, a, x, f),
    ensures
        doc.rank@[a] <= doc.rank@[x],
    decreases f,
{
    if x != a {
        let q = parent_at(doc.nodes@, x).unwrap();
        assert(parent_ok(doc.nodes@, doc.kids@, doc.rank@, x));
        lemma_anc_step_up(doc.nodes@, a, x, q, f);
        lemma_anc_rank(doc, a, idx(q), (f - 1) as nat);
    }
}

/// A well-formed document always holds its root, which has no parent.
pub proof fn lemma_root_valid(doc: &Document)
    requires
        doc.wf(),
    ensures
        doc.valid(NodeId(0)),
        doc.node(NodeId(0)).spec_parent() is None,
{
}

/// A node with no children is an ancestor of nothing but itself.
pub proof fn lemma_childless_not_ancestor(doc: &Document, c: NodeId, x: NodeId)
    requires
        doc.wf(),
        doc.valid(c),
        doc.valid(x),
        x != c,
        doc.child_list(c).len() == 0,
    ensures
        !doc.is_anc_or_self(c, x),
{
    if doc.is_anc_or_self(c, x) {
        let f = choose|f: nat| anc_within(doc.nodes@, idx(c), idx(x), f);
        lemma_childless_not_ancestor_within(doc, c, idx(x), f);
    }
}

proof fn lemma_childless_not_ancestor_within(doc: &Document, c: NodeId, x: int, f: nat)
    requires
        doc.wf(),
        doc.valid(c),
        0 <= x < doc.spec_len(),
        x != idx(c),
        doc.child_list(c).len() == 0,
    ensures
        !anc_within(doc.nodes@, idx(c), x, f),
    decreases f,
{
    if anc_within(doc.nodes@, idx(c), x, f) {
        let q = parent_at(doc.nodes@, x).unwrap();
        lemma_anc_step_up(doc.nodes@, idx(c), x, q, f);
        assert(parent_ok(doc.nodes@, doc.kids@, doc.rank@, x));
        if idx(q) == idx(c) {
            assert(doc.kids@[idx(c)].contains(NodeId(x as u32)));
        } else {
            lemma_childless_not_ancestor_within(doc, c, idx(q), (f - 1) as nat);
        }
    }
}

/// Acyclicity: in a well-formed document no node is an ancestor of its own parent, so
/// following parent links from any node never returns to it.
pub proof fn lemma_acyclic(doc: &Document, x: NodeId)
    requires
        doc.wf(),
        doc.valid(x),
        doc.node(x).spec_parent() is Some,
    ensures
        !doc.is_anc_or_self(x, doc.node(x).spec_parent().unwrap()),
{
    let q = doc.node(x).spec_parent().unwrap();
    assert(parent_ok(doc.nodes@, doc.kids@, doc.rank@, idx(x)));
    if doc.is_anc_or_self(x, q) {
        let f = choose|f: nat| anc_within(doc.nodes@, idx(x), idx(q), f);
        lemma_anc_rank(doc, idx(x), idx(q), f);
    }
}

} // verus!
