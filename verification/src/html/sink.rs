//! The tree-construction side of HTML parsing: what each request of the HTML tree builder
//! does to the document. Text appended next to a text node merges into it; a `<template>`
//! element gets a document fragment for its contents; attributes are only added where the
//! element has none of that name yet.
use vstd::prelude::*;

use crate::dom::document::{append_result, detach_result, idx, reparent_result, lemma_child_links, lemma_childless_not_ancestor, lemma_parent_link, lemma_root_valid, member_ok, pos_of, Document, NodeId, QuirksMode};
use crate::dom::node::{Attr, Doctype, Element, NodeKind, QualName};
use crate::strutil::{push_str, same_str};

verus! {

/// The parsed document and the parse errors reported while building it.
pub struct ParseOutputInner {
    /// The parsed document tree.
    pub document: Document,
    /// Every parse error reported, in report order.
    pub parse_errors: Vec<String>,
}

/// The node whose text an appended run of text merges into: `candidate`, when it names a
/// text node.
pub open spec fn merge_target(doc: Document, candidate: Option<NodeId>) -> bool {
    candidate matches Some(id) && doc.valid(id) && doc.node(id).spec_kind() is Text
}

/// `after` is `before` with only the text of text node `id` changed, to its old text
/// followed by `more`.
pub open spec fn text_extended(before: Document, after: Document, id: NodeId, more: Seq<char>) -> bool {
    &&& after.wf()
    &&& after.spec_len() == before.spec_len()
    &&& after.node(id).spec_kind() is Text
    &&& after.node(id).spec_kind()->Text_0@ == before.node(id).spec_kind()->Text_0@ + more
    &&& forall|i: int|
        0 <= i < before.spec_len() && i != id.0 ==> #[trigger] after.spec_nodes()[i]
            == before.spec_nodes()[i]
    &&& after.same_meta(&before)
    &&& forall|x: NodeId| #[trigger] after.child_list(x) == before.child_list(x)
}

/// `after` is `before` plus one new node `n` (the next arena slot) of a kind satisfying
/// `kind_ok`, appended to `parent`'s children when `parent` names a node.
pub open spec fn node_appended(before: Document, after: Document, parent: NodeId, n: NodeId) -> bool {
    &&& after.wf()
    &&& n == NodeId(before.spec_len() as u32)
    &&& after.spec_len() == before.spec_len() + 1
    &&& forall|i: int|
        0 <= i < before.spec_len() && i != parent.0 ==> #[trigger] after.spec_nodes()[i].spec_kind()
            == before.spec_nodes()[i].spec_kind()
    &&& before.valid(parent) ==> after.node(parent).spec_kind() == before.node(parent).spec_kind()
    &&& after.same_meta(&before)
    &&& before.valid(parent) ==> after.child_list(parent) == before.child_list(parent).push(n)
    &&& forall|q: NodeId|
        before.valid(q) && q != parent ==> #[trigger] after.child_list(q) == before.child_list(q)
}

/// `after` is `before` after [`Document::insert_before`] of `new` before `sibling`:
/// unchanged when refused, else `new` sits just before `sibling` under `sibling`'s parent.
pub open spec fn insert_result(before: Document, after: Document, sibling: NodeId, new: NodeId) -> bool {
    &&& after.wf()
    &&& before.insert_error(sibling, new) is Some ==> after == before
    &&& before.insert_error(sibling, new) is None ==> {
        let p = before.node(sibling).spec_parent()->0;
        &&& after.same_kinds(&before)
        &&& after.same_meta(&before)
        &&& after.child_list(p) == before.child_list(p).insert(pos_of(before.child_list(p), sibling), new)
        &&& after.same_lists_except(&before, set![p])
        &&& after.node(new).spec_parent() == Some(p)
    }
}

/// `after` is `before` plus a new detached text node `n`, holding `text`, in the next
/// arena slot.
pub open spec fn text_created(before: Document, after: Document, n: NodeId, text: Seq<char>) -> bool {
    &&& after.wf()
    &&& after.same_meta(&before)
    &&& n == NodeId(before.spec_len() as u32)
    &&& after.spec_len() == before.spec_len() + 1
    &&& after.node(n).spec_kind() is Text
    &&& after.node(n).spec_kind()->Text_0@ == text
    &&& after.node(n).spec_parent() is None
    &&& after.child_list(n) == Seq::<NodeId>::empty()
    &&& forall|i: int| 0 <= i < before.spec_len() ==> #[trigger] after.spec_nodes()[i] == before.spec_nodes()[i]
    &&& forall|q: NodeId| #[trigger] before.valid(q) ==> after.child_list(q) == before.child_list(q)
}

/// `after` is `before` after moving `node` to just before `sibling`: detached first, then
/// inserted (the insertion refused, it stays detached).
pub open spec fn moved_before(before: Document, after: Document, sibling: NodeId, node: NodeId) -> bool {
    exists|mid: Document| #[trigger] detach_result(before, mid, node) && insert_result(mid, after, sibling, node)
}

/// `after` is `before` after inserting `text` just before `sibling`: merged into the text
/// node before `sibling`, else a new text node inserted before it.
pub open spec fn text_before(before: Document, after: Document, sibling: NodeId, text: Seq<char>) -> bool {
    let prev = if before.valid(sibling) { before.node(sibling).spec_prev_sibling() } else { None };
    &&& merge_target(before, prev) ==> text_extended(before, after, prev->0, text)
    &&& !merge_target(before, prev) && before.spec_len() < u32::MAX ==> exists|mid: Document|
        #[trigger] text_created(before, mid, NodeId(before.spec_len() as u32), text) && insert_result(
            mid,
            after,
            sibling,
            NodeId(before.spec_len() as u32),
        )
}

/// `after` is `before` after appending `text` as `parent`'s last child: merged into that
/// last child if it is a text node, else as a new text node.
pub open spec fn text_appended(before: Document, after: Document, parent: NodeId, text: Seq<char>) -> bool {
    let last = if before.valid(parent) && before.child_list(parent).len() > 0 {
        Some(before.child_list(parent).last())
    } else {
        None
    };
    &&& merge_target(before, last) ==> text_extended(before, after, last->0, text)
    &&& !merge_target(before, last) && before.spec_len() < u32::MAX ==> {
        &&& node_appended(before, after, parent, NodeId(before.spec_len() as u32))
        &&& after.node(NodeId(before.spec_len() as u32)).spec_kind() is Text
        &&& after.node(NodeId(before.spec_len() as u32)).spec_kind()->Text_0@ == text
    }
}

/// Whether `element` names a node that has a parent.
pub open spec fn has_parent(doc: Document, element: NodeId) -> bool {
    doc.valid(element) && doc.node(element).spec_parent() is Some
}

/// No two text nodes sit next to each other among `p`'s children.
pub open spec fn no_adjacent_text(doc: Document, p: NodeId) -> bool {
    forall|k: int|
        0 < k < doc.child_list(p).len() ==> !(doc.node(#[trigger] doc.child_list(p)[k]).spec_kind() is Text
            && doc.node(doc.child_list(p)[k - 1]).spec_kind() is Text)
}

/// Appending text never puts two text nodes side by side: text that follows a text node
/// merges into it, so a parent whose children had no adjacent text nodes still has none.
pub proof fn lemma_append_text_keeps_text_apart(d0: Document, d1: Document, parent: NodeId, text: Seq<char>)
    requires
        d0.wf(),
        d0.valid(parent),
        d0.spec_len() < u32::MAX,
        text_appended(d0, d1, parent, text),
        no_adjacent_text(d0, parent),
    ensures
        no_adjacent_text(d1, parent),
{
    lemma_child_links(&d0, parent);
    let cs = d0.child_list(parent);
    let last = if cs.len() > 0 { Some(cs.last()) } else { None };
    if merge_target(d0, last) {
        let id = last->0;
        assert forall|k: int| 0 < k < d1.child_list(parent).len() implies !(d1.node(
            #[trigger] d1.child_list(parent)[k],
        ).spec_kind() is Text && d1.node(d1.child_list(parent)[k - 1]).spec_kind() is Text) by {
            assert(d1.child_list(parent) == cs);
            assert(d0.valid(cs[k]) && d0.valid(cs[k - 1]));
            if cs[k] != id {
                assert(d1.spec_nodes()[idx_of(cs[k])] == d0.spec_nodes()[idx_of(cs[k])]);
            }
            if cs[k - 1] != id {
                assert(d1.spec_nodes()[idx_of(cs[k - 1])] == d0.spec_nodes()[idx_of(cs[k - 1])]);
            }
        }
    } else {
        let n = NodeId(d0.spec_len() as u32);
        assert(d1.child_list(parent) == cs.push(n));
        assert forall|k: int| 0 < k < d1.child_list(parent).len() implies !(d1.node(
            #[trigger] d1.child_list(parent)[k],
        ).spec_kind() is Text && d1.node(d1.child_list(parent)[k - 1]).spec_kind() is Text) by {
            assert(d0.valid(cs[k - 1]));
            if cs[k - 1] != parent {
                assert(d1.spec_nodes()[idx_of(cs[k - 1])].spec_kind() == d0.spec_nodes()[idx_of(cs[k - 1])].spec_kind());
            }
            if k < cs.len() {
                assert(d0.valid(cs[k]));
                assert(d1.child_list(parent)[k] == cs[k]);
                if cs[k] != parent {
                    assert(d1.spec_nodes()[idx_of(cs[k])].spec_kind() == d0.spec_nodes()[idx_of(cs[k])].spec_kind());
                }
            }
        }
    }
}

/// Inserting text before a node that is not itself text never puts two text nodes side by
/// side: text that follows a text node merges into it.
pub proof fn lemma_text_before_keeps_text_apart(d0: Document, d1: Document, sibling: NodeId, text: Seq<char>)
    requires
        d0.wf(),
        d0.valid(sibling),
        d0.node(sibling).spec_parent() is Some,
        !(d0.node(sibling).spec_kind() is Text),
        d0.spec_len() < u32::MAX,
        text_before(d0, d1, sibling, text),
        no_adjacent_text(d0, d0.node(sibling).spec_parent()->0),
    ensures
        no_adjacent_text(d1, d0.node(sibling).spec_parent()->0),
{
    let p = d0.node(sibling).spec_parent()->0;
    lemma_parent_link(&d0, sibling);
    lemma_child_links(&d0, p);
    let cs = d0.child_list(p);
    let k = choose|k: int| 0 <= k < cs.len() && cs[k] == sibling;
    assert(member_ok(d0.spec_nodes(), idx(p), cs, k));
    let prev = d0.node(sibling).spec_prev_sibling();
    if merge_target(d0, prev) {
        let id = prev->0;
        assert forall|j: int| 0 < j < d1.child_list(p).len() implies !(d1.node(
            #[trigger] d1.child_list(p)[j],
        ).spec_kind() is Text && d1.node(d1.child_list(p)[j - 1]).spec_kind() is Text) by {
            assert(d1.child_list(p) == cs);
            assert(d0.valid(cs[j]) && d0.valid(cs[j - 1]));
            if cs[j] != id {
                assert(d1.spec_nodes()[idx_of(cs[j])] == d0.spec_nodes()[idx_of(cs[j])]);
            }
            if cs[j - 1] != id {
                assert(d1.spec_nodes()[idx_of(cs[j - 1])] == d0.spec_nodes()[idx_of(cs[j - 1])]);
            }
        }
    } else {
        let n = NodeId(d0.spec_len() as u32);
        let mid = choose|mid: Document| #[trigger] text_created(d0, mid, n, text) && insert_result(mid, d1, sibling, n);
        assert(mid.valid(sibling) && mid.node(sibling) == d0.node(sibling));
        assert(mid.valid(p));
        assert(mid.child_list(p) == cs);
        lemma_childless_not_ancestor(&mid, n, p);
        assert(mid.insert_error(sibling, n) is None);
        assert(k == pos_of(cs, sibling)) by {
            assert(cs.no_duplicates());
        }
        let ns = cs.insert(k, n);
        assert(d1.child_list(p) == ns);
        assert forall|j: int| 0 < j < ns.len() implies !(d1.node(#[trigger] ns[j]).spec_kind() is Text
            && d1.node(ns[j - 1]).spec_kind() is Text) by {
            if j < k {
                assert(ns[j] == cs[j] && ns[j - 1] == cs[j - 1]);
                assert(d0.valid(cs[j]) && d0.valid(cs[j - 1]));
                assert(d1.spec_nodes()[idx_of(cs[j])].spec_kind() == mid.spec_nodes()[idx_of(cs[j])].spec_kind());
                assert(d1.spec_nodes()[idx_of(cs[j - 1])].spec_kind() == mid.spec_nodes()[idx_of(cs[j - 1])].spec_kind());
            } else if j == k {
                assert(ns[j] == n && ns[j - 1] == cs[k - 1]);
                assert(prev == Some(cs[k - 1]));
                assert(d0.valid(cs[k - 1]));
                assert(d1.spec_nodes()[idx_of(cs[k - 1])].spec_kind() == mid.spec_nodes()[idx_of(cs[k - 1])].spec_kind());
            } else if j == k + 1 {
                assert(ns[j] == sibling && ns[j - 1] == n);
                assert(d1.spec_nodes()[idx_of(sibling)].spec_kind() == mid.spec_nodes()[idx_of(sibling)].spec_kind());
            } else {
                assert(ns[j] == cs[j - 1] && ns[j - 1] == cs[j - 2]);
                assert(d0.valid(cs[j - 1]) && d0.valid(cs[j - 2]));
                assert(d1.spec_nodes()[idx_of(cs[j - 1])].spec_kind() == mid.spec_nodes()[idx_of(cs[j - 1])].spec_kind());
                assert(d1.spec_nodes()[idx_of(cs[j - 2])].spec_kind() == mid.spec_nodes()[idx_of(cs[j - 2])].spec_kind());
            }
        }
    }
}

/// Appends `text` to the text of `candidate`, if it names a text node; returns whether it
/// did (on `false` nothing changed).
pub fn merge_into_trailing_text(doc: &mut Document, candidate: Option<NodeId>, text: &str) -> (r: bool)
    requires
        old(doc).wf(),
    ensures
        final(doc).wf(),
        r == merge_target(*old(doc), candidate),
        r ==> text_extended(*old(doc), *final(doc), candidate->0, text@),
        !r ==> *final(doc) == *old(doc),
{
    let id = match candidate {
        None => {
            return false;
        },
        Some(id) => id,
    };
    let merged = match doc.get(id) {
        None => None,
        Some(node) => match node.kind() {
            NodeKind::Text(existing) => {
                let mut m = existing.clone();
                push_str(&mut m, text);
                Some(m)
            },
            _ => None,
        },
    };
    match merged {
        None => false,
        Some(m) => {
            doc.set_kind(id, NodeKind::Text(m));
            true
        },
    }
}

/// Builds the document html5ever's tree builder describes, one request at a time.
pub struct DomSink {
    doc: Document,
    errors: Vec<String>,
}

impl DomSink {
    /// The document built so far.
    pub closed spec fn spec_doc(&self) -> Document {
        self.doc
    }

    /// The parse errors reported so far.
    pub closed spec fn spec_errors(&self) -> Seq<String> {
        self.errors@
    }

    /// The sink's invariant: its document is well formed.
    pub open spec fn wf(&self) -> bool {
        self.spec_doc().wf()
    }

    /// A sink holding a fresh document with base URL `base_url`.
    pub fn new(base_url: &str) -> (s: DomSink)
        ensures
            s.wf(),
            s.spec_doc().spec_len() == 1,
            s.spec_doc().node(NodeId(0)).detached(NodeKind::Document),
            s.spec_doc().child_list(NodeId(0)) == Seq::<NodeId>::empty(),
            s.spec_doc().spec_quirks() == QuirksMode::NoQuirks,
            s.spec_doc().spec_base_url() == base_url@,
            s.spec_errors().len() == 0,
    {
        DomSink { doc: Document::new(base_url), errors: Vec::new() }
    }

    /// The finished document and its parse errors.
    pub fn finish(self) -> (r: ParseOutputInner)
        ensures
            r.document == self.spec_doc(),
            r.parse_errors@ == self.spec_errors(),
    {
        ParseOutputInner { document: self.doc, parse_errors: self.errors }
    }

    /// Records a parse error.
    pub fn parse_error(&mut self, msg: String)
        ensures
            final(self).spec_doc() == old(self).spec_doc(),
            final(self).spec_errors() == old(self).spec_errors().push(msg),
    {
        self.errors.push(msg);
    }

    /// The document root.
    pub fn get_document(&self) -> (r: NodeId)
        ensures
            r == NodeId(0),
    {
        self.doc.root()
    }

    /// The name of element `target`, or `None` if it names no element.
    pub fn elem_name(&self, target: NodeId) -> (r: Option<&QualName>)
        ensures
            r == (if self.spec_doc().valid(target) && self.spec_doc().node(target).spec_kind() is Element {
                Some(&self.spec_doc().node(target).spec_kind()->Element_0.name)
            } else {
                None
            }),
    {
        match self.doc.element(target) {
            Some(element) => Some(&element.name),
            None => None,
        }
    }

    /// Creates an element named `name` with `attrs`. A `<template>` element (`template`)
    /// also gets a document fragment, created right after it, to hold its contents.
    pub fn create_element(&mut self, name: QualName, attrs: Vec<Attr>, template: bool) -> (r: NodeId)
        requires
            old(self).wf(),
        ensures
            final(self).wf(),
            final(self).spec_errors() == old(self).spec_errors(),
            final(self).spec_doc().same_meta(&old(self).spec_doc()),
            old(self).spec_doc().spec_len() >= u32::MAX ==> r == NodeId(u32::MAX) && final(self).spec_doc()
                == old(self).spec_doc(),
            old(self).spec_doc().spec_len() < u32::MAX ==> {
                let d0 = old(self).spec_doc();
                let d1 = final(self).spec_doc();
                let fragment = template && d0.spec_len() + 1 < u32::MAX;
                &&& r == NodeId(d0.spec_len() as u32)
                &&& d1.spec_len() == d0.spec_len() + (if fragment { 2int } else { 1int })
                &&& d1.node(r).detached(NodeKind::Element(Element {
                    name,
                    attrs,
                    template_contents: if template {
                        Some(NodeId((d0.spec_len() + 1) as u32))
                    } else {
                        None
                    },
                }))
                &&& fragment ==> d1.node(NodeId((d0.spec_len() + 1) as u32)).detached(
                    NodeKind::DocumentFragment,
                )
                &&& forall|i: int|
                    0 <= i < d0.spec_len() ==> #[trigger] d1.spec_nodes()[i] == d0.spec_nodes()[i]
                &&& forall|q: NodeId| #[trigger] d0.valid(q) ==> d1.child_list(q) == d0.child_list(q)
            },
    {
        let len = self.doc.len();
        let contents = if template && len < u32::MAX as usize {
            Some(NodeId::from_index(len + 1))
        } else {
            None
        };
        let id = self.doc.create(NodeKind::Element(Element { name, attrs, template_contents: contents }));
        let ghost d0 = old(self).doc;
        if template {
            let ghost mid = self.doc;
            let _ = self.doc.create(NodeKind::DocumentFragment);
            proof {
                if d0.spec_len() + 1 < u32::MAX {
                    assert(self.doc.spec_nodes()[idx_of(id)] == mid.spec_nodes()[idx_of(id)]);
                    assert forall|i: int| 0 <= i < d0.spec_len() implies #[trigger] self.doc.spec_nodes()[i]
                        == d0.spec_nodes()[i] by {
                        assert(mid.spec_nodes()[i] == d0.spec_nodes()[i]);
                    }
                    assert forall|q: NodeId| #[trigger] d0.valid(q) implies self.doc.child_list(q)
                        == d0.child_list(q) by {
                        assert(mid.valid(q));
                    }
                }
            }
        }
        id
    }

    /// Creates a comment node.
    pub fn create_comment(&mut self, text: String) -> (r: NodeId)
        requires
            old(self).wf(),
        ensures
            final(self).wf(),
            final(self).spec_errors() == old(self).spec_errors(),
            old(self).spec_doc().spec_len() < u32::MAX ==> r == NodeId(old(self).spec_doc().spec_len() as u32)
                && final(self).spec_doc().node(r).detached(NodeKind::Comment(text))
                && final(self).spec_doc().spec_len() == old(self).spec_doc().spec_len() + 1
                && (forall|i: int| 0 <= i < old(self).spec_doc().spec_len() ==> #[trigger] final(self).spec_doc().spec_nodes()[i]
                    == old(self).spec_doc().spec_nodes()[i])
                && (forall|q: NodeId| #[trigger] old(self).spec_doc().valid(q) ==> final(self).spec_doc().child_list(q)
                    == old(self).spec_doc().child_list(q)),
            old(self).spec_doc().spec_len() >= u32::MAX ==> r == NodeId(u32::MAX) && final(self).spec_doc()
                == old(self).spec_doc(),
    {
        self.doc.create(NodeKind::Comment(text))
    }

    /// Creates a processing-instruction node.
    pub fn create_pi(&mut self, target: String, data: String) -> (r: NodeId)
        requires
            old(self).wf(),
        ensures
            final(self).wf(),
            final(self).spec_errors() == old(self).spec_errors(),
            old(self).spec_doc().spec_len() < u32::MAX ==> r == NodeId(old(self).spec_doc().spec_len() as u32)
                && final(self).spec_doc().node(r).detached(NodeKind::ProcessingInstruction { target, data })
                && final(self).spec_doc().spec_len() == old(self).spec_doc().spec_len() + 1
                && (forall|i: int| 0 <= i < old(self).spec_doc().spec_len() ==> #[trigger] final(self).spec_doc().spec_nodes()[i]
                    == old(self).spec_doc().spec_nodes()[i])
                && (forall|q: NodeId| #[trigger] old(self).spec_doc().valid(q) ==> final(self).spec_doc().child_list(q)
                    == old(self).spec_doc().child_list(q)),
            old(self).spec_doc().spec_len() >= u32::MAX ==> r == NodeId(u32::MAX) && final(self).spec_doc()
                == old(self).spec_doc(),
    {
        self.doc.create(NodeKind::ProcessingInstruction { target, data })
    }

    /// Appends node `child` to `parent`'s children; a request the document refuses (an
    /// unknown id, a cycle, an attached child) changes nothing.
    pub fn append_node(&mut self, parent: NodeId, child: NodeId)
        requires
            old(self).wf(),
        ensures
            final(self).wf(),
            final(self).spec_errors() == old(self).spec_errors(),
            append_result(old(self).spec_doc(), final(self).spec_doc(), parent, child),
    {
        let _ = self.doc.append_child(parent, child);
    }

    /// Appends `text` as `parent`'s last child: merged into that last child if it is a text
    /// node, else as a new text node.
    pub fn append_text(&mut self, parent: NodeId, text: &str)
        requires
            old(self).wf(),
        ensures
            final(self).wf(),
            final(self).spec_errors() == old(self).spec_errors(),
            text_appended(old(self).spec_doc(), final(self).spec_doc(), parent, text@),
    {
        let ghost d0 = self.doc;
        let last = match self.doc.get(parent) {
            Some(node) => node.last_child(),
            None => None,
        };
        proof {
            if d0.valid(parent) {
                lemma_child_links(&d0, parent);
            }
        }
        if !merge_into_trailing_text(&mut self.doc, last, text) {
            let owned = text.to_owned();
            let id = self.doc.create(NodeKind::Text(owned));
            let ghost d_mid = self.doc;
            proof {
                if d0.valid(parent) && d0.spec_len() < u32::MAX {
                    lemma_childless_not_ancestor(&d_mid, id, parent);
                }
            }
            let _ = self.doc.append_child(parent, id);
        }
    }

    /// Appends the doctype `<!DOCTYPE name public_id system_id>` to the document root.
    pub fn append_doctype_to_document(&mut self, name: String, public_id: String, system_id: String)
        requires
            old(self).wf(),
        ensures
            final(self).wf(),
            final(self).spec_errors() == old(self).spec_errors(),
            old(self).spec_doc().spec_len() < u32::MAX ==> {
                let d0 = old(self).spec_doc();
                let d1 = final(self).spec_doc();
                let n = NodeId(d0.spec_len() as u32);
                &&& node_appended(d0, d1, NodeId(0), n)
                &&& d1.node(n).spec_kind() == NodeKind::Doctype(Doctype { name, public_id, system_id })
            },
    {
        let root = self.doc.root();
        let ghost d0 = self.doc;
        proof {
            lemma_root_valid(&d0);
        }
        let id = self.doc.create(NodeKind::Doctype(Doctype { name, public_id, system_id }));
        let ghost d_mid = self.doc;
        proof {
            if d0.spec_len() < u32::MAX {
                lemma_childless_not_ancestor(&d_mid, id, root);
            }
        }
        let _ = self.doc.append_child(root, id);
    }

    /// The node holding `target`'s template contents, or `target` itself when it is not a
    /// `<template>` element.
    pub fn get_template_contents(&self, target: NodeId) -> (r: NodeId)
        ensures
            r == (if self.spec_doc().valid(target) && self.spec_doc().node(target).spec_kind() is Element
                && self.spec_doc().node(target).spec_kind()->Element_0.template_contents is Some {
                self.spec_doc().node(target).spec_kind()->Element_0.template_contents->0
            } else {
                target
            }),
    {
        match self.doc.element(target) {
            Some(element) => match element.template_contents {
                Some(contents) => contents,
                None => target,
            },
            None => target,
        }
    }

    /// Whether two handles name the same node.
    pub fn same_node(&self, x: NodeId, y: NodeId) -> (r: bool)
        ensures
            r == (x == y),
    {
        x == y
    }

    /// Sets the document's quirks mode.
    pub fn set_quirks_mode(&mut self, mode: QuirksMode)
        requires
            old(self).wf(),
        ensures
            final(self).wf(),
            final(self).spec_errors() == old(self).spec_errors(),
            final(self).spec_doc().spec_quirks() == mode,
            final(self).spec_doc().spec_base_url() == old(self).spec_doc().spec_base_url(),
            final(self).spec_doc().spec_nodes() == old(self).spec_doc().spec_nodes(),
            forall|x: NodeId| #[trigger] final(self).spec_doc().child_list(x) == old(self).spec_doc().child_list(x),
    {
        self.doc.set_quirks_mode(mode);
    }

    /// Moves node `node` to just before `sibling`: it is first removed from any old parent.
    pub fn append_before_sibling_node(&mut self, sibling: NodeId, node: NodeId)
        requires
            old(self).wf(),
        ensures
            final(self).wf(),
            final(self).spec_errors() == old(self).spec_errors(),
            moved_before(old(self).spec_doc(), final(self).spec_doc(), sibling, node),
    {
        let _ = self.doc.detach(node);
        let ghost mid = self.doc;
        let _ = self.doc.insert_before(sibling, node);
        assert(detach_result(old(self).spec_doc(), mid, node) && insert_result(mid, self.doc, sibling, node));
    }

    /// Inserts `text` just before `sibling`: merged into `sibling`'s previous sibling if that
    /// is a text node, else as a new text node.
    pub fn append_before_sibling_text(&mut self, sibling: NodeId, text: &str)
        requires
            old(self).wf(),
        ensures
            final(self).wf(),
            final(self).spec_errors() == old(self).spec_errors(),
            text_before(old(self).spec_doc(), final(self).spec_doc(), sibling, text@),
    {
        let prev = match self.doc.get(sibling) {
            Some(node) => node.prev_sibling(),
            None => None,
        };
        let ghost d0 = self.doc;
        if !merge_into_trailing_text(&mut self.doc, prev, text) {
            let id = self.doc.create(NodeKind::Text(text.to_owned()));
            let ghost mid = self.doc;
            let _ = self.doc.insert_before(sibling, id);
            proof {
                if d0.spec_len() < u32::MAX {
                    assert(text_created(d0, mid, id, text@) && insert_result(mid, self.doc, sibling, id));
                }
            }
        }
    }

    /// Appends node `child` before `element` if `element` has a parent, else to
    /// `prev_element`.
    pub fn append_based_on_parent_node_node(&mut self, element: NodeId, prev_element: NodeId, child: NodeId)
        requires
            old(self).wf(),
        ensures
            final(self).wf(),
            final(self).spec_errors() == old(self).spec_errors(),
            has_parent(old(self).spec_doc(), element) ==> moved_before(
                old(self).spec_doc(),
                final(self).spec_doc(),
                element,
                child,
            ),
            !has_parent(old(self).spec_doc(), element) ==> append_result(
                old(self).spec_doc(),
                final(self).spec_doc(),
                prev_element,
                child,
            ),
    {
        let has_parent = match self.doc.get(element) {
            Some(node) => node.parent().is_some(),
            None => false,
        };
        if has_parent {
            self.append_before_sibling_node(element, child);
        } else {
            self.append_node(prev_element, child);
        }
    }

    /// Appends `text` before `element` if `element` has a parent, else to `prev_element`.
    pub fn append_based_on_parent_node_text(&mut self, element: NodeId, prev_element: NodeId, text: &str)
        requires
            old(self).wf(),
        ensures
            final(self).wf(),
            final(self).spec_errors() == old(self).spec_errors(),
            has_parent(old(self).spec_doc(), element) ==> text_before(
                old(self).spec_doc(),
                final(self).spec_doc(),
                element,
                text@,
            ),
            !has_parent(old(self).spec_doc(), element) ==> text_appended(
                old(self).spec_doc(),
                final(self).spec_doc(),
                prev_element,
                text@,
            ),
    {
        let has_parent = match self.doc.get(element) {
            Some(node) => node.parent().is_some(),
            None => false,
        };
        if has_parent {
            self.append_before_sibling_text(element, text);
        } else {
            self.append_text(prev_element, text);
        }
    }

    /// Adds to element `target` each of `attrs` whose qualified name it does not carry yet,
    /// in order; a non-element `target` is left alone.
    pub fn add_attrs_if_missing(&mut self, target: NodeId, attrs: Vec<Attr>)
        requires
            old(self).wf(),
        ensures
            final(self).wf(),
            final(self).spec_errors() == old(self).spec_errors(),
            final(self).spec_doc().spec_len() == old(self).spec_doc().spec_len(),
            final(self).spec_doc().same_meta(&old(self).spec_doc()),
            forall|x: NodeId| #[trigger] final(self).spec_doc().child_list(x) == old(self).spec_doc().child_list(x),
            forall|i: int|
                0 <= i < old(self).spec_doc().spec_len() && i != target.0 ==> #[trigger] final(self).spec_doc().spec_nodes()[i]
                    == old(self).spec_doc().spec_nodes()[i],
            old(self).spec_doc().valid(target) && old(self).spec_doc().node(target).spec_kind() is Element
                ==> {
                let e0 = old(self).spec_doc().node(target).spec_kind()->Element_0;
                &&& final(self).spec_doc().node(target).spec_kind() is Element
                &&& final(self).spec_doc().node(target).spec_kind()->Element_0.name == e0.name
                &&& final(self).spec_doc().node(target).spec_kind()->Element_0.template_contents == e0.template_contents
                &&& final(self).spec_doc().node(target).spec_kind()->Element_0.attrs@ == with_missing_attrs(
                    e0.attrs@,
                    attrs@,
                )
            },
            !(old(self).spec_doc().valid(target) && old(self).spec_doc().node(target).spec_kind() is Element)
                ==> final(self).spec_doc() == old(self).spec_doc(),
    {
        let element = match self.doc.element(target) {
            None => {
                return;
            },
            Some(e) => e,
        };
        let mut merged = copy_attrs(&element.attrs);
        let name = copy_qualname(&element.name);
        let template_contents = element.template_contents;
        let mut i: usize = 0;
        while i < attrs.len()
            invariant
                i <= attrs@.len(),
                merged@ == with_missing_attrs(
                    self.doc.node(target).spec_kind()->Element_0.attrs@,
                    attrs@.take(i as int),
                ),
            decreases attrs.len() - i,
        {
            proof {
                assert(attrs@.take(i + 1).drop_last() =~= attrs@.take(i as int));
                assert(attrs@.take(i + 1).last() == attrs@[i as int]);
            }
            if !has_name(&merged, &attrs[i].name) {
                merged.push(copy_attr(&attrs[i]));
            }
            i += 1;
        }
        proof {
            assert(attrs@.take(i as int) =~= attrs@);
        }
        self.doc.set_kind(target, NodeKind::Element(Element { name, attrs: merged, template_contents }));
        proof {
            assert(final(self).spec_doc().node(target).spec_kind()->Element_0.attrs@ == merged@);
        }
    }

    /// Detaches `target` from its parent, if it has one.
    pub fn remove_from_parent(&mut self, target: NodeId)
        requires
            old(self).wf(),
        ensures
            final(self).wf(),
            final(self).spec_errors() == old(self).spec_errors(),
            detach_result(old(self).spec_doc(), final(self).spec_doc(), target),
    {
        let _ = self.doc.detach(target);
    }

    /// Moves all of `node`'s children, in order, to the end of `new_parent`'s children; a
    /// request the document refuses changes nothing.
    pub fn reparent_children(&mut self, node: NodeId, new_parent: NodeId)
        requires
            old(self).wf(),
        ensures
            final(self).wf(),
            final(self).spec_errors() == old(self).spec_errors(),
            reparent_result(old(self).spec_doc(), final(self).spec_doc(), node, new_parent),
    {
        let _ = self.doc.reparent_children(node, new_parent);
    }
}

/// The arena position of `id`.
pub open spec fn idx_of(id: NodeId) -> int {
    id.0 as int
}

/// Two qualified names are the same name: same prefix, namespace and local name.
pub open spec fn same_qualname(a: QualName, b: QualName) -> bool {
    &&& a.ns@ == b.ns@
    &&& a.local@ == b.local@
    &&& match (a.prefix, b.prefix) {
        (None, None) => true,
        (Some(x), Some(y)) => x@ == y@,
        _ => false,
    }
}

/// Whether some attribute in `attrs` has the name `name`.
pub open spec fn names_attr(attrs: Seq<Attr>, name: QualName) -> bool {
    exists|i: int| 0 <= i < attrs.len() && same_qualname(#[trigger] attrs[i].name, name)
}

/// `existing` followed, in order, by each of `added` whose name is not yet present.
pub open spec fn with_missing_attrs(existing: Seq<Attr>, added: Seq<Attr>) -> Seq<Attr>
    decreases added.len(),
{
    if added.len() == 0 {
        existing
    } else {
        let before = with_missing_attrs(existing, added.drop_last());
        if names_attr(before, added.last().name) {
            before
        } else {
            before.push(added.last())
        }
    }
}

/// Whether the optional strings are equal.
fn same_opt_str(a: &Option<String>, b: &Option<String>) -> (r: bool)
    ensures
        r == match (*a, *b) {
            (None, None) => true,
            (Some(x), Some(y)) => x@ == y@,
            _ => false,
        },
{
    match (a, b) {
        (None, None) => true,
        (Some(x), Some(y)) => same_str(x.as_str(), y.as_str()),
        _ => false,
    }
}

/// Whether `attrs` has an attribute named `name`.
fn has_name(attrs: &Vec<Attr>, name: &QualName) -> (r: bool)
    ensures
        r == names_attr(attrs@, *name),
{
    let mut i: usize = 0;
    while i < attrs.len()
        invariant
            i <= attrs@.len(),
            forall|k: int| 0 <= k < i ==> !same_qualname(#[trigger] attrs@[k].name, *name),
        decreases attrs.len() - i,
    {
        let a = &attrs[i].name;
        if same_str(a.ns.as_str(), name.ns.as_str()) && same_str(a.local.as_str(), name.local.as_str())
            && same_opt_str(&a.prefix, &name.prefix) {
            return true;
        }
        i += 1;
    }
    false
}

/// A copy of `q`.
fn copy_qualname(q: &QualName) -> (r: QualName)
    ensures
        r == *q,
{
    let prefix = match &q.prefix {
        Some(p) => Some(p.clone()),
        None => None,
    };
    QualName { prefix, ns: q.ns.clone(), local: q.local.clone() }
}

/// A copy of `a`.
fn copy_attr(a: &Attr) -> (r: Attr)
    ensures
        r == *a,
{
    Attr { name: copy_qualname(&a.name), value: a.value.clone() }
}

/// A copy of `attrs`.
fn copy_attrs(attrs: &Vec<Attr>) -> (r: Vec<Attr>)
    ensures
        r@ == attrs@,
{
    let mut r: Vec<Attr> = Vec::new();
    let mut i: usize = 0;
    while i < attrs.len()
        invariant
            i <= attrs@.len(),
            r@ == attrs@.take(i as int),
        decreases attrs.len() - i,
    {
        r.push(copy_attr(&attrs[i]));
        proof {
            assert(r@ =~= attrs@.take(i + 1));
        }
        i += 1;
    }
    proof {
        assert(attrs@.take(i as int) =~= attrs@);
    }
    r
}

} // verus!
