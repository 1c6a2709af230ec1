//! Iterative DOM traversal: direct children, pre-order descendants, and ancestor chains.
//!
//! None of these recurse: a hostile document can nest arbitrarily deep, so each walk is
//! an explicit loop (the descendants walk keeps its own stack). Each returns the whole
//! sequence as a `Vec`.
use vstd::prelude::*;

use super::document::{
    Document, NodeId, idx, lemma_child_links, lemma_parent_link, list_links_ok, member_ok,
};

verus! {

/// `v` in reverse order.
fn reversed(v: &Vec<NodeId>) -> (r: Vec<NodeId>)
    ensures
        r@ == v@.reverse(),
{
    let mut r: Vec<NodeId> = Vec::new();
    let mut i = v.len();
    while i > 0
        invariant
            i <= v.len(),
            r@ == v@.subrange(i as int, v.len() as int).reverse(),
        decreases i,
    {
        i = i - 1;
        r.push(v[i]);
        assert(v@.subrange(i as int, v.len() as int).reverse() =~= v@.subrange(
            i + 1,
            v.len() as int,
        ).reverse().push(v@[i as int]));
    }
    assert(v@.subrange(0, v.len() as int) =~= v@);
    r
}

/// The pre-order walk of a concatenation is the concatenation of the walks.
pub proof fn lemma_forest_concat(doc: &Document, a: Seq<NodeId>, b: Seq<NodeId>, lo: nat)
    ensures
        doc.forest(a + b, lo) == doc.forest(a, lo) + doc.forest(b, lo),
    decreases a.len(),
{
    if a.len() == 0 {
        assert(a + b =~= b);
    } else {
        assert((a + b).drop_first() =~= a.drop_first() + b);
        assert((a + b)[0] == a[0]);
        lemma_forest_concat(doc, a.drop_first(), b, lo);
    }
}

/// The lower rank limit of a walk does not matter when every root of the forest is
/// above both limits.
pub proof fn lemma_forest_lo(doc: &Document, cs: Seq<NodeId>, lo1: nat, lo2: nat)
    requires
        forall|i: int| 0 <= i < cs.len() ==> lo1 <= #[trigger] doc.rank_of(cs[i]) && lo2 <= doc.rank_of(cs[i]),
    ensures
        doc.forest(cs, lo1) == doc.forest(cs, lo2),
    decreases cs.len(),
{
    if cs.len() > 0 {
        assert(lo1 <= doc.rank_of(cs[0]));
        assert forall|i: int| 0 <= i < cs.drop_first().len() implies lo1 <= #[trigger] doc.rank_of(cs.drop_first()[i])
            && lo2 <= doc.rank_of(cs.drop_first()[i]) by {
            assert(cs.drop_first()[i] == cs[i + 1]);
        }
        lemma_forest_lo(doc, cs.drop_first(), lo1, lo2);
    }
}

impl Document {
    /// `id`'s direct children, in document order; empty if `id` is unknown or a leaf.
    pub fn children(&self, id: NodeId) -> (r: Vec<NodeId>)
        requires
            self.wf(),
        ensures
            r@ == (if self.valid(id) {
                self.child_list(id)
            } else {
                Seq::<NodeId>::empty()
            }),
    {
        let mut out: Vec<NodeId> = Vec::new();
        let first = match self.get(id) {
            None => {
                return out;
            },
            Some(node) => node.first_child(),
        };
        let ghost cs = self.child_list(id);
        proof {
            lemma_child_links(self, id);
        }
        let mut cur = first;
        while cur.is_some()
            invariant
                self.wf(),
                self.valid(id),
                cs == self.child_list(id),
                list_links_ok(self.spec_nodes(), idx(id), cs),
                out@.len() <= cs.len(),
                out@ == cs.subrange(0, out@.len() as int),
                cur == (if out@.len() < cs.len() {
                    Some(cs[out@.len() as int])
                } else {
                    None
                }),
            decreases cs.len() - out@.len(),
        {
            let c = cur.unwrap();
            let ghost i = out@.len() as int;
            proof {
                assert(member_ok(self.spec_nodes(), idx(id), cs, i));
            }
            out.push(c);
            cur = match self.get(c) {
                Some(node) => node.next_sibling(),
                None => None,
            };
            assert(out@ =~= cs.subrange(0, i + 1));
        }
        assert(out@ =~= cs);
        out
    }

    /// `id`'s descendants in pre-order (each node before its children, children left to
    /// right), `id` itself excluded; empty if `id` is unknown or a leaf.
    #[verifier::spinoff_prover]
    #[verifier::rlimit(40)]
    pub fn descendants(&self, id: NodeId) -> (r: Vec<NodeId>)
        requires
            self.wf(),
        ensures
            r@ == (if self.valid(id) {
                self.descendants_spec(id)
            } else {
                Seq::<NodeId>::empty()
            }),
    {
        let mut out: Vec<NodeId> = Vec::new();
        if id.index() >= self.len() {
            return out;
        }
        let kids = self.children(id);
        let mut stack = reversed(&kids);
        let ghost lo: nat = self.rank_of(id) + 1;
        let ghost target = self.descendants_spec(id);
        proof {
            lemma_child_links(self, id);
            assert(stack@.reverse() =~= kids@);
        }
        while stack.len() > 0
            invariant
                self.wf(),
                self.valid(id),
                lo == self.rank_of(id) + 1,
                target == self.descendants_spec(id),
                out@ + self.forest(stack@.reverse(), lo) == target,
                forall|i: int|
                    0 <= i < stack@.len() ==> {
                        &&& self.valid(#[trigger] stack@[i])
                        &&& lo <= self.rank_of(stack@[i])
                        &&& self.rank_of(stack@[i]) < self.rank_bound()
                    },
            decreases target.len() - out@.len(),
        {
            let ghost old_stack = stack@;
            let c = stack.pop().unwrap();
            let ghost rest = stack@;
            proof {
                assert(old_stack == rest.push(c));
                assert(old_stack.reverse() =~= seq![c] + rest.reverse());
                assert(self.valid(old_stack[old_stack.len() - 1]));
                lemma_child_links(self, c);
                assert(self.forest(old_stack.reverse(), lo) == self.subtree(c) + self.forest(
                    rest.reverse(),
                    lo,
                )) by {
                    assert((seq![c] + rest.reverse())[0] == c);
                    assert((seq![c] + rest.reverse()).drop_first() =~= rest.reverse());
                }
            }
            out.push(c);
            let grandkids = self.children(c);
            let rev = reversed(&grandkids);
            let ghost gk = grandkids@;
            let mut j: usize = 0;
            while j < rev.len()
                invariant
                    j <= rev.len(),
                    rev@ == gk.reverse(),
                    stack@ == rest + rev@.subrange(0, j as int),
                decreases rev.len() - j,
            {
                stack.push(rev[j]);
                j = j + 1;
                assert(stack@ =~= rest + rev@.subrange(0, j as int));
            }
            proof {
                assert(rev@.subrange(0, rev@.len() as int) =~= rev@);
                assert(stack@ == rest + gk.reverse());
                assert(stack@.reverse() =~= gk + rest.reverse());
                lemma_forest_concat(self, gk, rest.reverse(), lo);
                assert forall|i: int| 0 <= i < gk.len() implies lo <= #[trigger] self.rank_of(gk[i])
                    && self.rank_of(c) + 1 <= self.rank_of(gk[i]) by {
                }
                lemma_forest_lo(self, gk, lo, self.rank_of(c) + 1);
                assert(self.subtree(c) == seq![c] + self.forest(gk, self.rank_of(c) + 1));
                assert(out@ + self.forest(stack@.reverse(), lo) =~= target);
                assert forall|i: int| 0 <= i < stack@.len() implies {
                    &&& self.valid(#[trigger] stack@[i])
                    &&& lo <= self.rank_of(stack@[i])
                    &&& self.rank_of(stack@[i]) < self.rank_bound()
                } by {
                    if i < rest.len() {
                        assert(stack@[i] == old_stack[i]);
                    } else {
                        let k = i - rest.len();
                        assert(stack@[i] == gk.reverse()[k]);
                        assert(gk.reverse()[k] == gk[gk.len() - 1 - k]);
                    }
                }
            }
        }
        proof {
            assert(stack@.reverse() =~= Seq::<NodeId>::empty());
            assert(out@ =~= target);
        }
        out
    }

    /// `id`'s ancestor chain: parent, grandparent, and so on up to the root, `id` itself
    /// excluded; empty if `id` is unknown or has no parent.
    pub fn ancestors(&self, id: NodeId) -> (r: Vec<NodeId>)
        requires
            self.wf(),
        ensures
            r@ == (if self.valid(id) {
                self.ancestors_spec(id)
            } else {
                Seq::<NodeId>::empty()
            }),
    {
        let mut out: Vec<NodeId> = Vec::new();
        if id.index() >= self.len() {
            return out;
        }
        let mut cur = id;
        while self.get(cur).unwrap().parent().is_some()
            invariant
                self.wf(),
                self.valid(id),
                self.valid(cur),
                out@ + self.ancestors_spec(cur) == self.ancestors_spec(id),
            decreases self.rank_of(cur),
        {
            let p = self.get(cur).unwrap().parent().unwrap();
            proof {
                lemma_parent_link(self, cur);
                assert(self.ancestors_spec(cur) == seq![p] + self.ancestors_spec(p));
            }
            out.push(p);
            proof {
                assert(out@ + self.ancestors_spec(p) =~= self.ancestors_spec(id));
            }
            cur = p;
        }
        proof {
            assert(out@ =~= self.ancestors_spec(id));
        }
        out
    }
}

} // verus!
