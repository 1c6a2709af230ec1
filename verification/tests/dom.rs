use chromelight::dom::document::{Document, NodeId};
use chromelight::dom::error::DomError;
use chromelight::dom::node::{Attr, Doctype, Element, NodeKind, QualName};
use chromelight::dom::serialize::{dom_dump, html5lib_tree};

const HTML_NS: &str = "http://www.w3.org/1999/xhtml";
const SVG_NS: &str = "http://www.w3.org/2000/svg";
const MATHML_NS: &str = "http://www.w3.org/1998/Math/MathML";

fn qname(ns: &str, local: &str) -> QualName {
    QualName { prefix: None, ns: ns.to_string(), local: local.to_string() }
}

fn el_ns(doc: &mut Document, ns: &str, name: &str) -> NodeId {
    doc.create(NodeKind::Element(Element { name: qname(ns, name), attrs: Vec::new(), template_contents: None }))
}

fn el(doc: &mut Document, name: &str) -> NodeId {
    el_ns(doc, HTML_NS, name)
}

fn attr(name: &str, value: &str) -> Attr {
    Attr { name: qname("", name), value: value.to_string() }
}

fn child_ids(doc: &Document, parent: NodeId) -> Vec<NodeId> {
    let mut out = Vec::new();
    let mut cur = doc.get(parent).and_then(|n| n.first_child());
    while let Some(id) = cur {
        out.push(id);
        cur = doc.get(id).and_then(|n| n.next_sibling());
    }
    out
}

#[test]
fn new_document_should_have_only_root() {
    let doc = Document::new("about:blank");
    assert_eq!(doc.len(), 1);
    assert!(matches!(doc.get(doc.root()).map(|n| n.kind()), Some(NodeKind::Document)));
}

#[test]
fn append_child_should_link_parent_and_siblings() {
    let mut doc = Document::new("about:blank");
    let root = doc.root();
    let a = el(&mut doc, "a");
    let b = el(&mut doc, "b");
    doc.append_child(root, a).expect("append a");
    doc.append_child(root, b).expect("append b");
    let r = doc.get(root).expect("root");
    assert_eq!((r.first_child(), r.last_child()), (Some(a), Some(b)));
    assert_eq!(doc.get(a).expect("a").next_sibling(), Some(b));
    assert_eq!(doc.get(b).expect("b").prev_sibling(), Some(a));
    assert_eq!(doc.get(b).expect("b").parent(), Some(root));
}

#[test]
fn insert_before_should_place_node_between_siblings() {
    let mut doc = Document::new("about:blank");
    let root = doc.root();
    let a = el(&mut doc, "a");
    let c = el(&mut doc, "c");
    let b = el(&mut doc, "b");
    doc.append_child(root, a).expect("a");
    doc.append_child(root, c).expect("c");
    doc.insert_before(c, b).expect("insert");
    assert_eq!(child_ids(&doc, root), vec![a, b, c]);
}

#[test]
fn detach_should_unlink_and_keep_node_alive() {
    let mut doc = Document::new("about:blank");
    let root = doc.root();
    let a = el(&mut doc, "a");
    let b = el(&mut doc, "b");
    doc.append_child(root, a).expect("a");
    doc.append_child(root, b).expect("b");
    doc.detach(a).expect("detach");
    assert_eq!(doc.get(root).expect("root").first_child(), Some(b));
    assert_eq!(doc.get(b).expect("b").prev_sibling(), None);
    assert_eq!(doc.get(a).expect("a").parent(), None);
    assert_eq!(doc.len(), 3);
}

#[test]
fn append_child_should_reject_cycle() {
    let mut doc = Document::new("about:blank");
    let root = doc.root();
    let a = el(&mut doc, "a");
    let b = el(&mut doc, "b");
    doc.append_child(root, a).expect("a");
    doc.append_child(a, b).expect("b");
    assert!(matches!(doc.append_child(b, a), Err(DomError::Cycle { .. })));
}

#[test]
fn append_child_should_reject_attached_node() {
    let mut doc = Document::new("about:blank");
    let root = doc.root();
    let a = el(&mut doc, "a");
    let b = el(&mut doc, "b");
    doc.append_child(root, a).expect("a");
    doc.append_child(root, b).expect("b");
    assert!(matches!(doc.append_child(a, b), Err(DomError::NotDetached(_))));
}

#[test]
fn reparent_children_should_move_all_children_in_order() {
    let mut doc = Document::new("about:blank");
    let root = doc.root();
    let from = el(&mut doc, "from");
    let to = el(&mut doc, "to");
    let x = el(&mut doc, "x");
    let y = el(&mut doc, "y");
    doc.append_child(root, from).expect("from");
    doc.append_child(root, to).expect("to");
    doc.append_child(from, x).expect("x");
    doc.append_child(from, y).expect("y");
    doc.reparent_children(from, to).expect("reparent");
    assert_eq!(doc.get(from).expect("from").first_child(), None);
    assert_eq!(doc.get(to).expect("to").first_child(), Some(x));
    assert_eq!(doc.get(y).expect("y").parent(), Some(to));
}

#[test]
fn get_should_return_none_for_unknown_id() {
    let doc = Document::new("about:blank");
    assert!(doc.get(NodeId::from_index(99)).is_none());
}

#[test]
fn reparent_children_should_reject_an_unknown_node() {
    let mut doc = Document::new("about:blank");
    let real = el(&mut doc, "div");
    let foreign = {
        let mut other = Document::new("about:blank");
        let mut last = other.root();
        for _ in 0..8 {
            last = el(&mut other, "div");
        }
        last
    };
    assert!(doc.get(foreign).is_none());
    assert!(matches!(doc.reparent_children(foreign, real), Err(DomError::NoSuchNode(id)) if id == foreign));
    assert!(matches!(doc.reparent_children(real, foreign), Err(DomError::NoSuchNode(id)) if id == foreign));
}

#[test]
fn reparent_children_should_reject_a_target_inside_its_own_subtree() {
    let mut doc = Document::new("about:blank");
    let outer = el(&mut doc, "div");
    let inner = el(&mut doc, "div");
    let root = doc.root();
    doc.append_child(root, outer).expect("attach outer");
    doc.append_child(outer, inner).expect("attach inner");
    assert!(matches!(
        doc.reparent_children(outer, inner),
        Err(DomError::Cycle { ancestor, descendant }) if ancestor == outer && descendant == inner
    ));
}

#[test]
fn insert_before_should_reject_an_anchor_with_no_parent() {
    let mut doc = Document::new("about:blank");
    let detached_anchor = el(&mut doc, "div");
    let new_a = el(&mut doc, "div");
    let new_b = el(&mut doc, "div");
    assert!(matches!(doc.insert_before(detached_anchor, new_a), Err(DomError::IsDocument)));
    let root = doc.root();
    assert!(matches!(doc.insert_before(root, new_b), Err(DomError::IsDocument)));
}

fn build_tree(doc: &mut Document) -> (NodeId, NodeId, NodeId, NodeId, NodeId) {
    let root = doc.root();
    let html = el(doc, "html");
    let head = el(doc, "head");
    let body = el(doc, "body");
    let p = el(doc, "p");
    let text = doc.create(NodeKind::Text("hi".into()));
    doc.append_child(root, html).expect("html");
    doc.append_child(html, head).expect("head");
    doc.append_child(html, body).expect("body");
    doc.append_child(body, p).expect("p");
    doc.append_child(p, text).expect("text");
    (html, head, body, p, text)
}

#[test]
fn children_should_yield_direct_children_in_order() {
    let mut doc = Document::new("about:blank");
    let (html, head, body, ..) = build_tree(&mut doc);
    assert_eq!(doc.children(html), vec![head, body]);
}

#[test]
fn children_should_be_empty_for_leaf_and_unknown_id() {
    let mut doc = Document::new("about:blank");
    let (_, head, ..) = build_tree(&mut doc);
    assert_eq!(doc.children(head), Vec::<NodeId>::new());
    assert_eq!(doc.children(NodeId::from_index(9_999)), Vec::<NodeId>::new());
}

#[test]
fn descendants_should_be_preorder_excluding_self() {
    let mut doc = Document::new("about:blank");
    let root = doc.root();
    let (html, head, body, p, text) = build_tree(&mut doc);
    assert_eq!(doc.descendants(root), vec![html, head, body, p, text]);
    assert_eq!(doc.descendants(p), vec![text]);
    assert_eq!(doc.descendants(text), Vec::<NodeId>::new());
}

#[test]
fn ancestors_should_walk_parent_chain_excluding_self() {
    let mut doc = Document::new("about:blank");
    let root = doc.root();
    let (html, _head, body, p, _text) = build_tree(&mut doc);
    assert_eq!(doc.ancestors(p), vec![body, html, root]);
    assert_eq!(doc.ancestors(root), Vec::<NodeId>::new());
}

#[test]
fn descendants_should_not_overflow_stack_on_deep_chain() {
    const DEPTH: usize = 5_000;
    let mut doc = Document::new("about:blank");
    let root = doc.root();
    let mut ids = Vec::with_capacity(DEPTH);
    let mut parent = root;
    for _ in 0..DEPTH {
        let child = el(&mut doc, "div");
        doc.append_child(parent, child).expect("append in chain");
        ids.push(child);
        parent = child;
    }
    assert_eq!(doc.descendants(root), ids);
    let deepest = *ids.last().expect("chain is non-empty");
    let mut expected: Vec<NodeId> = ids.iter().rev().skip(1).copied().collect();
    expected.push(root);
    assert_eq!(doc.ancestors(deepest), expected);
}

#[test]
fn attr_should_return_the_first_match_by_local_name() {
    let mut doc = Document::new("about:blank");
    let div = doc.create(NodeKind::Element(Element {
        name: qname(HTML_NS, "div"),
        attrs: vec![attr("id", "a"), attr("class", "b"), attr("id", "c")],
        template_contents: None,
    }));
    assert_eq!(doc.attr(div, "id"), Some("a"));
    assert_eq!(doc.attr(div, "class"), Some("b"));
    assert_eq!(doc.attr(div, "title"), None);
    let text = doc.create(NodeKind::Text("t".into()));
    assert_eq!(doc.attr(text, "id"), None);
    assert_eq!(doc.attr(NodeId::from_index(77), "id"), None);
}

fn hand_built_tree() -> Document {
    let mut doc = Document::new("about:blank");
    let root = doc.root();
    let doctype = doc.create(NodeKind::Doctype(Doctype {
        name: "html".into(),
        public_id: "".into(),
        system_id: "".into(),
    }));
    let html = el(&mut doc, "html");
    let head = el(&mut doc, "head");
    let body = el(&mut doc, "body");
    let p = doc.create(NodeKind::Element(Element {
        name: qname(HTML_NS, "p"),
        attrs: vec![attr("id", "y"), attr("class", "x")],
        template_contents: None,
    }));
    let text = doc.create(NodeKind::Text("hi".into()));
    let comment = doc.create(NodeKind::Comment("c".into()));
    doc.append_child(root, doctype).expect("doctype");
    doc.append_child(root, html).expect("html");
    doc.append_child(html, head).expect("head");
    doc.append_child(html, body).expect("body");
    doc.append_child(body, p).expect("p");
    doc.append_child(p, text).expect("text");
    doc.append_child(p, comment).expect("comment");
    doc
}

#[test]
fn html5lib_tree_should_match_brief_example_exactly() {
    let doc = hand_built_tree();
    let expected = "#document\n\
         | <!DOCTYPE html>\n\
         | <html>\n\
         |   <head>\n\
         |   <body>\n\
         |     <p>\n\
         |       class=\"x\"\n\
         |       id=\"y\"\n\
         |       \"hi\"\n\
         |       <!-- c -->";
    assert_eq!(html5lib_tree(&doc), expected);
}

#[test]
fn dom_dump_should_delegate_to_html5lib_tree() {
    let doc = hand_built_tree();
    assert_eq!(dom_dump(&doc), html5lib_tree(&doc));
}

#[test]
fn svg_and_mathml_elements_should_get_namespace_prefix() {
    let mut doc = Document::new("about:blank");
    let root = doc.root();
    let svg = el_ns(&mut doc, SVG_NS, "svg");
    let math = el_ns(&mut doc, MATHML_NS, "math");
    doc.append_child(root, svg).expect("svg");
    doc.append_child(root, math).expect("math");
    assert_eq!(html5lib_tree(&doc), "#document\n| <svg svg>\n| <math math>");
}

#[test]
fn namespaced_attribute_should_render_as_prefix_local() {
    let mut doc = Document::new("about:blank");
    let root = doc.root();
    let math = doc.create(NodeKind::Element(Element {
        name: qname(MATHML_NS, "mi"),
        attrs: vec![Attr {
            name: QualName {
                prefix: Some("xlink".to_string()),
                ns: "http://www.w3.org/1999/xlink".to_string(),
                local: "href".to_string(),
            },
            value: "foo".into(),
        }],
        template_contents: None,
    }));
    doc.append_child(root, math).expect("math");
    assert_eq!(html5lib_tree(&doc), "#document\n| <math mi>\n|   xlink href=\"foo\"");
}

#[test]
fn doctype_with_public_and_system_ids_should_render_both() {
    let mut doc = Document::new("about:blank");
    let root = doc.root();
    let doctype = doc.create(NodeKind::Doctype(Doctype {
        name: "html".into(),
        public_id: "-//W3C//DTD HTML 4.01//EN".into(),
        system_id: "http://www.w3.org/TR/html4/strict.dtd".into(),
    }));
    doc.append_child(root, doctype).expect("doctype");
    assert_eq!(
        html5lib_tree(&doc),
        "#document\n| <!DOCTYPE html \"-//W3C//DTD HTML 4.01//EN\" \"http://www.w3.org/TR/html4/strict.dtd\">"
    );
}

#[test]
fn template_contents_should_nest_under_content_line() {
    let mut doc = Document::new("about:blank");
    let root = doc.root();
    let template = el(&mut doc, "template");
    let contents = doc.create(NodeKind::DocumentFragment);
    let text = doc.create(NodeKind::Text("Hello".into()));
    doc.append_child(contents, text).expect("text into contents");
    assert!(doc.set_kind(
        template,
        NodeKind::Element(Element { name: qname(HTML_NS, "template"), attrs: Vec::new(), template_contents: Some(contents) }),
    ));
    doc.append_child(root, template).expect("template");
    assert_eq!(html5lib_tree(&doc), "#document\n| <template>\n|   content\n|     \"Hello\"");
}

#[test]
fn attributes_should_be_sorted_by_name_regardless_of_insertion_order() {
    let mut doc = Document::new("about:blank");
    let root = doc.root();
    let div = doc.create(NodeKind::Element(Element {
        name: qname(HTML_NS, "div"),
        attrs: vec![attr("zebra", "1"), attr("apple", "2"), attr("mango", "3")],
        template_contents: None,
    }));
    doc.append_child(root, div).expect("div");
    assert_eq!(html5lib_tree(&doc), "#document\n| <div>\n|   apple=\"2\"\n|   mango=\"3\"\n|   zebra=\"1\"");
}

#[test]
fn html5lib_tree_should_not_overflow_stack_on_deep_chain() {
    const DEPTH: usize = 5_000;
    let mut doc = Document::new("about:blank");
    let root = doc.root();
    let mut parent = root;
    for _ in 0..DEPTH {
        let child = el(&mut doc, "div");
        doc.append_child(parent, child).expect("append in chain");
        parent = child;
    }
    let out = html5lib_tree(&doc);
    assert_eq!(out.lines().count(), 1 + DEPTH);
    assert!(out.ends_with(&format!("{}<div>", "  ".repeat(DEPTH - 1))));
}

#[test]
fn equal_attribute_keys_keep_their_order() {
    let mut doc = Document::new("about:blank");
    let root = doc.root();
    let div = doc.create(NodeKind::Element(Element {
        name: qname(HTML_NS, "div"),
        attrs: vec![attr("b", "1"), attr("a", "2"), attr("b", "3")],
        template_contents: None,
    }));
    doc.append_child(root, div).expect("div");
    assert_eq!(html5lib_tree(&doc), "#document\n| <div>\n|   a=\"2\"\n|   b=\"1\"\n|   b=\"3\"");
}

#[test]
fn detaching_twice_is_detaching_once() {
    let mut doc = Document::new("about:blank");
    let root = doc.root();
    let a = el(&mut doc, "a");
    let b = el(&mut doc, "b");
    doc.append_child(root, a).unwrap();
    doc.append_child(root, b).unwrap();
    doc.detach(a).unwrap();
    let once = html5lib_tree(&doc);
    doc.detach(a).unwrap();
    assert_eq!(html5lib_tree(&doc), once);
    assert_eq!(child_ids(&doc, root), vec![b]);
    assert_eq!(doc.get(a).and_then(|n| n.parent()), None);
}

#[test]
fn detaching_right_after_append_restores_the_children() {
    let mut doc = Document::new("about:blank");
    let root = doc.root();
    let a = el(&mut doc, "a");
    let b = el(&mut doc, "b");
    doc.append_child(root, a).unwrap();
    let before = html5lib_tree(&doc);
    doc.append_child(root, b).unwrap();
    doc.detach(b).unwrap();
    assert_eq!(html5lib_tree(&doc), before);
    assert_eq!(child_ids(&doc, root), vec![a]);
    assert_eq!(doc.get(b).and_then(|n| n.parent()), None);
}
