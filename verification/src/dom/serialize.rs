//! The html5lib tree-construction dump of a document (the `#document` format).
//!
//! The first line is `#document`; every other node is one line: `| `, two spaces per depth
//! level below the root's children, then the node: `<tag>` (`<svg tag>`, `<math tag>` for
//! SVG and MathML elements) followed by one line per attribute, one level deeper, sorted by
//! (namespace, local name); `"text"`; `<!-- comment -->`; `<!DOCTYPE name>` (with its ids
//! when either is non-empty). A `<template>`'s contents appear under a synthetic `content`
//! line one level deeper than the template. The walk is iterative and visits at most as many
//! nodes as the document holds.
use vstd::prelude::*;

use crate::dom::document::{Document, Node, NodeId};
use crate::dom::node::{Attr, Doctype, NodeKind};
use crate::layout::dump::indent;
use crate::strutil::{push_str, same_str};

verus! {

/// The SVG namespace URL.
pub const SVG_NAMESPACE: &'static str = "http://www.w3.org/2000/svg";

/// The MathML namespace URL.
pub const MATHML_NAMESPACE: &'static str = "http://www.w3.org/1998/Math/MathML";

/// `n` two-space indentation levels.
pub open spec fn spaces(n: nat) -> Seq<char> {
    Seq::new(2 * n, |i: int| ' ')
}

/// The prefix an element's tag line carries for its namespace.
pub open spec fn tag_prefix_spec(ns: Seq<char>) -> Seq<char> {
    if ns == SVG_NAMESPACE@ {
        "svg "@
    } else if ns == MATHML_NAMESPACE@ {
        "math "@
    } else {
        ""@
    }
}

/// The html5lib namespace prefix for an element's tag line: `svg ` and `math ` for the SVG
/// and MathML namespaces, empty otherwise.
pub fn tag_prefix(ns: &str) -> (r: &'static str)
    ensures
        r@ == tag_prefix_spec(ns@),
{
    if same_str(ns, SVG_NAMESPACE) {
        "svg "
    } else if same_str(ns, MATHML_NAMESPACE) {
        "math "
    } else {
        ""
    }
}

/// An attribute's line: `name="value"`, or `prefix local="value"` with a namespace prefix.
pub open spec fn attr_spec(a: Attr) -> Seq<char> {
    match a.name.prefix {
        Some(p) => p@ + " "@ + a.name.local@ + "=\""@ + a.value@ + "\""@,
        None => a.name.local@ + "=\""@ + a.value@ + "\""@,
    }
}

/// Renders one attribute as `name="value"`, or `prefix local="value"` when it has a
/// namespace prefix.
pub fn format_attr(attr: &Attr) -> (r: String)
    ensures
        r@ == attr_spec(*attr),
{
    let mut out = String::new();
    match &attr.name.prefix {
        Some(p) => {
            push_str(&mut out, p.as_str());
            push_str(&mut out, " ");
        },
        None => {},
    }
    push_str(&mut out, attr.name.local.as_str());
    push_str(&mut out, "=\"");
    push_str(&mut out, attr.value.as_str());
    push_str(&mut out, "\"");
    proof {
        if attr.name.prefix is Some {
            assert(out@ =~= attr_spec(*attr));
        } else {
            assert(out@ =~= attr_spec(*attr));
        }
    }
    out
}

/// A doctype's rendering.
pub open spec fn doctype_spec(d: Doctype) -> Seq<char> {
    if d.public_id@.len() == 0 && d.system_id@.len() == 0 {
        "<!DOCTYPE "@ + d.name@ + ">"@
    } else {
        "<!DOCTYPE "@ + d.name@ + " \""@ + d.public_id@ + "\" \""@ + d.system_id@ + "\">"@
    }
}

/// Renders a doctype as `<!DOCTYPE name>` when both ids are empty, else
/// `<!DOCTYPE name "public" "system">`.
pub fn format_doctype(doctype: &Doctype) -> (r: String)
    ensures
        r@ == doctype_spec(*doctype),
{
    let mut out = "<!DOCTYPE ".to_owned();
    push_str(&mut out, doctype.name.as_str());
    if doctype.public_id.as_str().is_empty() && doctype.system_id.as_str().is_empty() {
        push_str(&mut out, ">");
    } else {
        push_str(&mut out, " \"");
        push_str(&mut out, doctype.public_id.as_str());
        push_str(&mut out, "\" \"");
        push_str(&mut out, doctype.system_id.as_str());
        push_str(&mut out, "\">");
    }
    proof {
        assert(out@ =~= doctype_spec(*doctype));
    }
    out
}

// ---------------------------------------------------------------------------------------
// Attribute order
// ---------------------------------------------------------------------------------------

/// Lexicographic order on character sequences (that of `str`): `a` before `b`.
pub open spec fn lex_lt(a: Seq<char>, b: Seq<char>) -> bool
    decreases a.len(),
{
    if b.len() == 0 {
        false
    } else if a.len() == 0 {
        true
    } else if a[0] != b[0] {
        (a[0] as u32) < (b[0] as u32)
    } else {
        lex_lt(a.drop_first(), b.drop_first())
    }
}

/// Whether attribute `a` sorts strictly before `b`: by namespace, then local name.
pub open spec fn attr_before(a: Attr, b: Attr) -> bool {
    lex_lt(a.name.ns@, b.name.ns@) || (a.name.ns@ == b.name.ns@ && lex_lt(a.name.local@, b.name.local@))
}

/// `a` inserted into the sorted `s` after every attribute that does not sort after it.
pub open spec fn insert_sorted(s: Seq<Attr>, a: Attr) -> Seq<Attr>
    decreases s.len(),
{
    if s.len() == 0 {
        seq![a]
    } else if attr_before(a, s.last()) {
        insert_sorted(s.drop_last(), a).push(s.last())
    } else {
        s.push(a)
    }
}

/// The attributes in (namespace, local name) order, attributes of equal key keeping their
/// original relative order.
pub open spec fn sorted_attrs(s: Seq<Attr>) -> Seq<Attr>
    decreases s.len(),
{
    if s.len() == 0 {
        s
    } else {
        insert_sorted(sorted_attrs(s.drop_last()), s.last())
    }
}

/// Each attribute sorts no earlier than the one before it.
pub open spec fn attrs_in_order(s: Seq<Attr>) -> bool {
    forall|k: int| 0 < k < s.len() ==> !attr_before(#[trigger] s[k], s[k - 1])
}

proof fn lemma_lex_lt_asymmetric(a: Seq<char>, b: Seq<char>)
    ensures
        lex_lt(a, b) ==> !lex_lt(b, a),
    decreases a.len(),
{
    if a.len() > 0 && b.len() > 0 && a[0] == b[0] {
        lemma_lex_lt_asymmetric(a.drop_first(), b.drop_first());
    }
}

proof fn lemma_attr_before_asymmetric(a: Attr, b: Attr)
    ensures
        attr_before(a, b) ==> !attr_before(b, a),
{
    lemma_lex_lt_asymmetric(a.name.ns@, b.name.ns@);
    lemma_lex_lt_asymmetric(a.name.local@, b.name.local@);
    lemma_lex_lt_asymmetric(a.name.ns@, a.name.ns@);
    lemma_lex_lt_asymmetric(a.name.local@, a.name.local@);
}

proof fn lemma_insert_sorted(s: Seq<Attr>, a: Attr)
    requires
        attrs_in_order(s),
    ensures
        attrs_in_order(insert_sorted(s, a)),
        insert_sorted(s, a).to_multiset() == s.to_multiset().insert(a),
        insert_sorted(s, a).len() == s.len() + 1,
        insert_sorted(s, a).last() == (if s.len() > 0 && attr_before(a, s.last()) {
            s.last()
        } else {
            a
        }),
    decreases s.len(),
{
    broadcast use vstd::seq_lib::group_to_multiset_ensures;

    if s.len() > 0 && attr_before(a, s.last()) {
        let rest = s.drop_last();
        assert(attrs_in_order(rest)) by {
            assert forall|k: int| 0 < k < rest.len() implies !attr_before(#[trigger] rest[k], rest[k - 1]) by {
                assert(rest[k] == s[k] && rest[k - 1] == s[k - 1]);
            }
        }
        lemma_insert_sorted(rest, a);
        let r = insert_sorted(rest, a);
        lemma_attr_before_asymmetric(a, s.last());
        if rest.len() > 0 {
            assert(!attr_before(s[s.len() - 1], s[s.len() - 2]));
            assert(rest.last() == s[s.len() - 2]);
        }
        assert forall|k: int| 0 < k < r.push(s.last()).len() implies !attr_before(
            #[trigger] r.push(s.last())[k],
            r.push(s.last())[k - 1],
        ) by {
            if k < r.len() {
                assert(r.push(s.last())[k] == r[k] && r.push(s.last())[k - 1] == r[k - 1]);
            }
        }
        assert(rest.push(s.last()) =~= s);
        assert(r.push(s.last()).to_multiset() =~= s.to_multiset().insert(a));
    } else {
        assert forall|k: int| 0 < k < s.push(a).len() implies !attr_before(
            #[trigger] s.push(a)[k],
            s.push(a)[k - 1],
        ) by {
            if k < s.len() {
                assert(s.push(a)[k] == s[k] && s.push(a)[k - 1] == s[k - 1]);
            }
        }
    }
}

/// The attribute order the tree dump prints is a sorting: it holds exactly the element's
/// attributes, and no attribute sorts strictly before the one printed ahead of it.
pub proof fn lemma_sorted_attrs(s: Seq<Attr>)
    ensures
        attrs_in_order(sorted_attrs(s)),
        sorted_attrs(s).to_multiset() == s.to_multiset(),
    decreases s.len(),
{
    broadcast use vstd::seq_lib::group_to_multiset_ensures;

    if s.len() > 0 {
        lemma_sorted_attrs(s.drop_last());
        lemma_insert_sorted(sorted_attrs(s.drop_last()), s.last());
        assert(s.drop_last().push(s.last()) =~= s);
    }
}

/// Whether `a` is lexicographically before `b`.
fn str_lt(a: &str, b: &str) -> (r: bool)
    ensures
        r == lex_lt(a@, b@),
{
    let ac = crate::strutil::chars_of(a);
    let bc = crate::strutil::chars_of(b);
    let mut i: usize = 0;
    proof {
        assert(a@.skip(0) =~= a@);
        assert(b@.skip(0) =~= b@);
    }
    while i < ac.len() && i < bc.len()
        invariant
            i <= ac@.len(),
            i <= bc@.len(),
            ac@ == a@,
            bc@ == b@,
            lex_lt(a@, b@) == lex_lt(a@.skip(i as int), b@.skip(i as int)),
        decreases ac.len() - i,
    {
        if ac[i] != bc[i] {
            proof {
                assert(a@.skip(i as int)[0] == ac@[i as int]);
                assert(b@.skip(i as int)[0] == bc@[i as int]);
                assert(a@.skip(i as int).len() > 0 && b@.skip(i as int).len() > 0);
            }
            return (ac[i] as u32) < (bc[i] as u32);
        }
        proof {
            assert(a@.skip(i as int)[0] == ac@[i as int]);
            assert(b@.skip(i as int)[0] == bc@[i as int]);
            assert(a@.skip(i as int).len() > 0 && b@.skip(i as int).len() > 0);
        }
        proof {
            assert(a@.skip(i as int).drop_first() =~= a@.skip(i + 1));
            assert(b@.skip(i as int).drop_first() =~= b@.skip(i + 1));
        }
        i += 1;
    }
    proof {
        assert(a@.skip(i as int).len() == a@.len() - i);
        assert(b@.skip(i as int).len() == b@.len() - i);
    }
    i < bc.len()
}

/// Whether attribute `a` sorts strictly before `b`.
fn attr_lt(a: &Attr, b: &Attr) -> (r: bool)
    ensures
        r == attr_before(*a, *b),
{
    str_lt(a.name.ns.as_str(), b.name.ns.as_str()) || (same_str(a.name.ns.as_str(), b.name.ns.as_str())
        && str_lt(a.name.local.as_str(), b.name.local.as_str()))
}

/// Positions of `attrs` in (namespace, local name) order, stable: a sorted list of
/// references into `attrs`.
fn sorted_attr_refs<'a>(attrs: &'a Vec<Attr>) -> (r: Vec<&'a Attr>)
    ensures
        r@.map_values(|x: &Attr| *x) == sorted_attrs(attrs@),
{
    let mut out: Vec<&'a Attr> = Vec::new();
    let mut i: usize = 0;
    while i < attrs.len()
        invariant
            i <= attrs@.len(),
            out@.map_values(|x: &Attr| *x) == sorted_attrs(attrs@.take(i as int)),
        decreases attrs.len() - i,
    {
        let a = &attrs[i];
        let ghost before = out@.map_values(|x: &Attr| *x);
        // Insert `a` after every element that does not sort after it: scan from the end.
        let mut j: usize = out.len();
        proof {
            assert(before.take(j as int) =~= before);
            assert(before.skip(j as int) =~= Seq::<Attr>::empty());
            assert(insert_sorted(before, *a) + Seq::<Attr>::empty() =~= insert_sorted(before, *a));
        }
        while j > 0 && attr_lt(a, out[j - 1])
            invariant
                j <= out@.len(),
                out@.map_values(|x: &Attr| *x) == before,
                insert_sorted(before, *a) == insert_sorted(before.take(j as int), *a) + before.skip(
                    j as int,
                ),
            decreases j,
        {
            proof {
                assert(before.take(j as int).drop_last() =~= before.take(j - 1));
                assert(before.take(j as int).last() == before[j - 1]);
                assert(before.skip(j - 1) =~= seq![before[j - 1]] + before.skip(j as int));
                assert((insert_sorted(before.take(j - 1), *a).push(before[j - 1])) + before.skip(
                    j as int,
                ) =~= insert_sorted(before.take(j - 1), *a) + before.skip(j - 1));
            }
            j -= 1;
        }
        proof {
            if j > 0 {
                assert(!attr_before(*a, before.take(j as int).last()));
                assert(insert_sorted(before.take(j as int), *a) == before.take(j as int).push(*a));
            } else {
                assert(before.take(0) =~= Seq::<Attr>::empty());
            }
            assert(attrs@.take(i + 1).drop_last() =~= attrs@.take(i as int));
            assert(attrs@.take(i + 1).last() == *a);
        }
        out.insert(j, a);
        proof {
            assert(out@.map_values(|x: &Attr| *x) =~= before.take(j as int).push(*a) + before.skip(
                j as int,
            ));
        }
        i += 1;
    }
    proof {
        assert(attrs@.take(i as int) =~= attrs@);
    }
    out
}

// ---------------------------------------------------------------------------------------
// Node lines and the walk
// ---------------------------------------------------------------------------------------

/// The attribute lines of an element at `depth`.
pub open spec fn attr_lines(attrs: Seq<Attr>, depth: nat) -> Seq<Seq<char>> {
    sorted_attrs(attrs).map_values(|a: Attr| "| "@ + spaces(depth) + attr_spec(a))
}

/// The line(s) of one node at `depth` (a direct child of the root is at depth 1): its own
/// line, plus one per attribute for an element; none for a document or fragment node.
pub open spec fn node_lines(kind: NodeKind, depth: nat) -> Seq<Seq<char>> {
    let ind = spaces(if depth >= 1 { (depth - 1) as nat } else { 0 });
    match kind {
        NodeKind::Element(e) => seq!["| "@ + ind + "<"@ + tag_prefix_spec(e.name.ns@) + e.name.local@ + ">"@]
            + attr_lines(e.attrs@, depth),
        NodeKind::Text(t) => seq!["| "@ + ind + "\""@ + t@ + "\""@],
        NodeKind::Comment(t) => seq!["| "@ + ind + "<!-- "@ + t@ + " -->"@],
        NodeKind::Doctype(d) => seq!["| "@ + ind + doctype_spec(d)],
        NodeKind::ProcessingInstruction { target, data } => seq![
            "| "@ + ind + "<?"@ + target@ + " "@ + data@ + ">"@,
        ],
        NodeKind::Document => Seq::empty(),
        NodeKind::DocumentFragment => Seq::empty(),
    }
}

/// `ids` at `depth`, in reverse order (so that popping from the end visits them in order).
pub open spec fn frames(ids: Seq<NodeId>, depth: nat) -> Seq<(NodeId, nat)> {
    Seq::new(ids.len(), |i: int| (ids[ids.len() - 1 - i], depth))
}

/// The children of `id` as walk frames at `depth`.
pub open spec fn child_frames(doc: Document, id: NodeId, depth: nat) -> Seq<(NodeId, nat)> {
    frames(if doc.valid(id) { doc.child_list(id) } else { Seq::empty() }, depth)
}

/// The pre-order walk: pop a node, emit its lines, push its children (a template's
/// contents, under a `content` line; a fragment's children at its own depth). At most
/// `remaining` nodes are visited; unknown ids are skipped.
pub open spec fn walk(doc: Document, stack: Seq<(NodeId, nat)>, remaining: nat, lines: Seq<Seq<char>>) -> Seq<Seq<char>>
    decreases remaining,
{
    if stack.len() == 0 || remaining == 0 {
        lines
    } else {
        let (id, depth) = stack.last();
        let rest = stack.drop_last();
        let rem = (remaining - 1) as nat;
        if !doc.valid(id) {
            walk(doc, rest, rem, lines)
        } else {
            let kind = doc.node(id).spec_kind();
            let out = lines + node_lines(kind, depth);
            match kind {
                NodeKind::Element(e) => match e.template_contents {
                    Some(c) => walk(
                        doc,
                        rest + child_frames(doc, c, depth + 2),
                        rem,
                        out.push("| "@ + spaces(depth) + "content"@),
                    ),
                    None => walk(doc, rest + child_frames(doc, id, depth + 1), rem, out),
                },
                NodeKind::DocumentFragment => walk(doc, rest + child_frames(doc, id, depth), rem, out),
                _ => walk(doc, rest, rem, out),
            }
        }
    }
}

/// `lines` joined with `\n`.
pub open spec fn join_lines(lines: Seq<Seq<char>>) -> Seq<char>
    decreases lines.len(),
{
    if lines.len() == 0 {
        Seq::empty()
    } else if lines.len() == 1 {
        lines[0]
    } else {
        join_lines(lines.drop_last()) + seq!['\n'] + lines.last()
    }
}

/// The html5lib dump of `doc`.
pub open spec fn html5lib_tree_spec(doc: Document) -> Seq<char> {
    join_lines(walk(doc, child_frames(doc, NodeId(0), 1), doc.spec_len(), seq!["#document"@]))
}

/// Appends `"| "` and `n` indentation levels to `out`.
fn push_indent(out: &mut String, n: usize)
    ensures
        final(out)@ == old(out)@ + "| "@ + spaces(n as nat),
{
    push_str(out, "| ");
    let ind = indent(n);
    push_str(out, ind.as_str());
    proof {
        assert(ind@ =~= spaces(n as nat));
    }
}

/// Appends the line(s) for one node (its own line, plus one per attribute for an element)
/// to `lines`; its children are the walk's business.
fn push_node_lines(node: &Node, depth: usize, lines: &mut Vec<String>)
    ensures
        views(final(lines)@) == views(old(lines)@) + node_lines(node.spec_kind(), depth as nat),
{
    let ind_n: usize = if depth >= 1 { depth - 1 } else { 0 };
    match node.kind() {
        NodeKind::Element(element) => {
            let mut line = String::new();
            push_indent(&mut line, ind_n);
            push_str(&mut line, "<");
            push_str(&mut line, tag_prefix(element.name.ns.as_str()));
            push_str(&mut line, element.name.local.as_str());
            push_str(&mut line, ">");
            let ghost before = views(lines@);
            lines.push(line);
            let sorted = sorted_attr_refs(&element.attrs);
            let ghost sorted_view = sorted@.map_values(|x: &Attr| *x);
            let mut k: usize = 0;
            while k < sorted.len()
                invariant
                    k <= sorted@.len(),
                    sorted_view == sorted_attrs(element.attrs@),
                    sorted@.map_values(|x: &Attr| *x) == sorted_view,
                    views(lines@) == before.push(line@) + attr_lines(element.attrs@, depth as nat).take(
                        k as int,
                    ),
                decreases sorted.len() - k,
            {
                let mut l = String::new();
                push_indent(&mut l, depth);
                let f = format_attr(sorted[k]);
                push_str(&mut l, f.as_str());
                proof {
                    assert(sorted_view[k as int] == *sorted@[k as int]);
                }
                let ghost lv = views(lines@);
                lines.push(l);
                proof {
                    assert(views(lines@) =~= lv.push(l@));
                    assert(attr_lines(element.attrs@, depth as nat).take(k + 1) =~= attr_lines(
                        element.attrs@,
                        depth as nat,
                    ).take(k as int).push(l@));
                }
                k += 1;
            }
            proof {
                assert(attr_lines(element.attrs@, depth as nat).take(k as int) =~= attr_lines(
                    element.attrs@,
                    depth as nat,
                ));
                assert(views(lines@) =~= views(old(lines)@) + node_lines(node.spec_kind(), depth as nat));
            }
        },
        NodeKind::Text(text) => {
            let mut line = String::new();
            push_indent(&mut line, ind_n);
            push_str(&mut line, "\"");
            push_str(&mut line, text.as_str());
            push_str(&mut line, "\"");
            lines.push(line);
            proof {
                assert(views(lines@) =~= views(old(lines)@) + node_lines(node.spec_kind(), depth as nat));
            }
        },
        NodeKind::Comment(text) => {
            let mut line = String::new();
            push_indent(&mut line, ind_n);
            push_str(&mut line, "<!-- ");
            push_str(&mut line, text.as_str());
            push_str(&mut line, " -->");
            lines.push(line);
            proof {
                assert(views(lines@) =~= views(old(lines)@) + node_lines(node.spec_kind(), depth as nat));
            }
        },
        NodeKind::Doctype(doctype) => {
            let mut line = String::new();
            push_indent(&mut line, ind_n);
            let d = format_doctype(doctype);
            push_str(&mut line, d.as_str());
            lines.push(line);
            proof {
                assert(views(lines@) =~= views(old(lines)@) + node_lines(node.spec_kind(), depth as nat));
            }
        },
        NodeKind::ProcessingInstruction { target, data } => {
            let mut line = String::new();
            push_indent(&mut line, ind_n);
            push_str(&mut line, "<?");
            push_str(&mut line, target.as_str());
            push_str(&mut line, " ");
            push_str(&mut line, data.as_str());
            push_str(&mut line, ">");
            lines.push(line);
            proof {
                assert(views(lines@) =~= views(old(lines)@) + node_lines(node.spec_kind(), depth as nat));
            }
        },
        NodeKind::Document => {
            proof {
                assert(views(lines@) =~= views(old(lines)@) + node_lines(node.spec_kind(), depth as nat));
            }
        },
        NodeKind::DocumentFragment => {
            proof {
                assert(views(lines@) =~= views(old(lines)@) + node_lines(node.spec_kind(), depth as nat));
            }
        },
    }
}

/// The strings' character sequences, in order.
pub open spec fn views(v: Seq<String>) -> Seq<Seq<char>> {
    v.map_values(|s: String| s@)
}

/// Pushes the children of `parent` onto `stack` as frames at `depth`, last child first.
fn push_children(doc: &Document, parent: NodeId, depth: usize, stack: &mut Vec<(NodeId, usize)>)
    requires
        doc.wf(),
    ensures
        frame_views(final(stack)@) == frame_views(old(stack)@) + child_frames(*doc, parent, depth as nat),
{
    let children = doc.children(parent);
    let mut i: usize = children.len();
    let ghost start = frame_views(stack@);
    while i > 0
        invariant
            i <= children@.len(),
            frame_views(stack@) == start + frames(children@, depth as nat).take(children@.len() - i),
        decreases i,
    {
        i -= 1;
        let ghost sv = frame_views(stack@);
        stack.push((children[i], depth));
        proof {
            assert(frame_views(stack@) =~= sv.push((children@[i as int], depth as nat)));
            assert(frames(children@, depth as nat).take(children@.len() - i) =~= frames(
                children@,
                depth as nat,
            ).take(children@.len() - i - 1).push((children@[i as int], depth as nat)));
        }
    }
    proof {
        assert(frames(children@, depth as nat).take(children@.len() as int) =~= frames(
            children@,
            depth as nat,
        ));
    }
}

/// The stack's frames with their depths as natural numbers.
pub open spec fn frame_views(s: Seq<(NodeId, usize)>) -> Seq<(NodeId, nat)> {
    s.map_values(|f: (NodeId, usize)| (f.0, f.1 as nat))
}

/// Joins `lines` with `\n`.
fn join(lines: &Vec<String>) -> (r: String)
    ensures
        r@ == join_lines(views(lines@)),
{
    let mut out = String::new();
    let mut i: usize = 0;
    while i < lines.len()
        invariant
            i <= lines@.len(),
            out@ == join_lines(views(lines@).take(i as int)),
        decreases lines.len() - i,
    {
        if i > 0 {
            push_str(&mut out, "\n");
        }
        proof {
            reveal_strlit("\n");
        }
        push_str(&mut out, lines[i].as_str());
        proof {
            let t = views(lines@).take(i + 1);
            assert(t.drop_last() =~= views(lines@).take(i as int));
            assert(t.last() == lines@[i as int]@);
            if i == 0 {
                assert(t.len() == 1);
                assert(t[0] == lines@[0]@);
                assert(out@ =~= join_lines(t));
            } else {
                assert(out@ =~= join_lines(t));
            }
        }
        i += 1;
    }
    proof {
        assert(views(lines@).take(i as int) =~= views(lines@));
    }
    out
}

proof fn lemma_frames_bounded(
    sv: Seq<(NodeId, usize)>,
    sv1: Seq<(NodeId, usize)>,
    now: Seq<(NodeId, usize)>,
    extra: Seq<(NodeId, nat)>,
    d: nat,
    bound: int,
)
    requires
        sv.len() > 0,
        sv1 == sv.drop_last(),
        forall|i: int| 0 <= i < sv.len() ==> (#[trigger] sv[i]).1 <= bound,
        d <= bound,
        frame_views(now) == frame_views(sv1) + extra,
        forall|j: int| 0 <= j < extra.len() ==> (#[trigger] extra[j]).1 == d,
    ensures
        forall|i: int| 0 <= i < now.len() ==> (#[trigger] now[i]).1 <= bound,
{
    assert(frame_views(now).len() == now.len());
    assert forall|i: int| 0 <= i < now.len() implies (#[trigger] now[i]).1 <= bound by {
        assert(frame_views(now)[i] == (now[i].0, now[i].1 as nat));
        if i < sv1.len() {
            assert(frame_views(sv1)[i] == (sv1[i].0, sv1[i].1 as nat));
            assert(sv1[i] == sv[i]);
        } else {
            assert(extra[i - sv1.len()].1 == d);
        }
    }
}

/// Renders `doc` in the html5lib tree-construction `#document` format.
pub fn html5lib_tree(doc: &Document) -> (r: String)
    requires
        doc.wf(),
        doc.spec_len() < usize::MAX / 4,
    ensures
        r@ == html5lib_tree_spec(*doc),
{
    let mut lines: Vec<String> = Vec::new();
    lines.push("#document".to_owned());
    let mut stack: Vec<(NodeId, usize)> = Vec::new();
    push_children(doc, doc.root(), 1, &mut stack);
    proof {
        assert(frame_views(stack@) =~= child_frames(*doc, NodeId(0), 1));
        assert(views(lines@) =~= seq!["#document"@]);
    }
    let mut remaining: usize = doc.len();
    proof {
        assert forall|i: int| 0 <= i < stack@.len() implies (#[trigger] stack@[i]).1 <= 1 + 2 * (doc.spec_len()
            - remaining) by {
            assert(frame_views(stack@)[i].1 == stack@[i].1);
        }
    }
    while stack.len() > 0 && remaining > 0
        invariant
            doc.wf(),
            remaining <= doc.spec_len(),
            doc.spec_len() < usize::MAX / 4,
            forall|i: int|
                0 <= i < stack@.len() ==> (#[trigger] stack@[i]).1 <= 1 + 2 * (doc.spec_len() - remaining),
            walk(*doc, frame_views(stack@), remaining as nat, views(lines@)) == walk(
                *doc,
                child_frames(*doc, NodeId(0), 1),
                doc.spec_len(),
                seq!["#document"@],
            ),
        decreases remaining,
    {
        let ghost fv = frame_views(stack@);
        let ghost lv = views(lines@);
        let ghost sv = stack@;
        let ghost rem0 = remaining;
        let (id, depth) = stack.pop().unwrap();
        proof {
            assert(frame_views(stack@) =~= fv.drop_last());
            assert(fv.last() == (id, depth as nat));
            assert(depth == sv.last().1);
        }
        remaining -= 1;
        let ghost bound = 1 + 2 * (doc.spec_len() - remaining);
        let node = match doc.get(id) {
            None => {
                proof {
                    assert forall|i: int| 0 <= i < stack@.len() implies (#[trigger] stack@[i]).1 <= bound by {
                        assert(stack@[i] == sv[i]);
                    }
                }
                continue;
            },
            Some(n) => n,
        };
        push_node_lines(node, depth, &mut lines);
        let ghost lv1 = views(lines@);
        let ghost sv1 = stack@;
        match node.kind() {
            NodeKind::Element(element) => {
                match element.template_contents {
                    Some(contents) => {
                        let mut line = String::new();
                        push_indent(&mut line, depth);
                        push_str(&mut line, "content");
                        lines.push(line);
                        proof {
                            assert(views(lines@) =~= lv1.push("| "@ + spaces(depth as nat) + "content"@));
                        }
                        push_children(doc, contents, depth + 2, &mut stack);
                        proof {
                            lemma_frames_bounded(sv, sv1, stack@, child_frames(*doc, contents, (depth + 2) as nat), (depth + 2) as nat, bound);
                        }
                    },
                    None => {
                        push_children(doc, id, depth + 1, &mut stack);
                        proof {
                            lemma_frames_bounded(sv, sv1, stack@, child_frames(*doc, id, (depth + 1) as nat), (depth + 1) as nat, bound);
                        }
                    },
                }
            },
            NodeKind::DocumentFragment => {
                push_children(doc, id, depth, &mut stack);
                proof {
                    lemma_frames_bounded(sv, sv1, stack@, child_frames(*doc, id, depth as nat), depth as nat, bound);
                }
            },
            _ => {
                proof {
                    assert forall|i: int| 0 <= i < stack@.len() implies (#[trigger] stack@[i]).1 <= bound by {
                        assert(stack@[i] == sv[i]);
                    }
                }
            },
        }
    }
    join(&lines)
}

/// Renders `doc` for snapshot comparison: the html5lib dump.
pub fn dom_dump(doc: &Document) -> (r: String)
    requires
        doc.wf(),
        doc.spec_len() < usize::MAX / 4,
    ensures
        r@ == html5lib_tree_spec(*doc),
{
    html5lib_tree(doc)
}

} // verus!
