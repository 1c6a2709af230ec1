use chromelight::dom::document::QuirksMode;
use chromelight::dom::node::{Attr, NodeKind, QualName};
use chromelight::dom::serialize::html5lib_tree;
use chromelight::html::sink::DomSink;

const HTML_NS: &str = "http://www.w3.org/1999/xhtml";

fn qname(local: &str) -> QualName {
    QualName { prefix: None, ns: HTML_NS.to_string(), local: local.to_string() }
}

fn attr(name: &str, value: &str) -> Attr {
    Attr { name: QualName { prefix: None, ns: String::new(), local: name.to_string() }, value: value.to_string() }
}

#[test]
fn text_nodes_should_merge_adjacent_appends() {
    let mut merged_sink = DomSink::new("about:blank");
    let root = merged_sink.get_document();
    merged_sink.append_text(root, "a");
    merged_sink.append_text(root, "b");
    let merged = merged_sink.finish();
    assert_eq!(html5lib_tree(&merged.document), "#document\n| \"ab\"");

    let mut split_sink = DomSink::new("about:blank");
    let root = split_sink.get_document();
    split_sink.append_text(root, "a");
    let comment = split_sink.create_comment("x".to_string());
    split_sink.append_node(root, comment);
    split_sink.append_text(root, "b");
    let split = split_sink.finish();
    assert_eq!(html5lib_tree(&split.document), "#document\n| \"a\"\n| <!-- x -->\n| \"b\"");
}

#[test]
fn append_before_sibling_text_should_merge_into_prev_text_sibling() {
    let mut sink = DomSink::new("about:blank");
    let root = sink.get_document();
    sink.append_text(root, "a");
    let p = sink.create_element(qname("p"), Vec::new(), false);
    sink.append_node(root, p);
    sink.append_before_sibling_text(p, "b");
    let output = sink.finish();
    assert_eq!(html5lib_tree(&output.document), "#document\n| \"ab\"\n| <p>");
}

#[test]
fn append_before_sibling_text_should_create_new_node_when_prev_sibling_is_not_text() {
    let mut sink = DomSink::new("about:blank");
    let root = sink.get_document();
    let comment = sink.create_comment("x".to_string());
    sink.append_node(root, comment);
    let p = sink.create_element(qname("p"), Vec::new(), false);
    sink.append_node(root, p);
    sink.append_before_sibling_text(p, "b");
    let output = sink.finish();
    assert_eq!(html5lib_tree(&output.document), "#document\n| <!-- x -->\n| \"b\"\n| <p>");

    let mut first = DomSink::new("about:blank");
    let root = first.get_document();
    let p = first.create_element(qname("p"), Vec::new(), false);
    first.append_node(root, p);
    first.append_before_sibling_text(p, "b");
    let output = first.finish();
    assert_eq!(html5lib_tree(&output.document), "#document\n| \"b\"\n| <p>");
}

#[test]
fn template_contents_should_be_stored_in_fragment() {
    let mut sink = DomSink::new("about:blank");
    let root = sink.get_document();
    let template = sink.create_element(qname("template"), Vec::new(), true);
    sink.append_node(root, template);
    let contents = sink.get_template_contents(template);
    assert_ne!(contents, template);
    sink.append_text(contents, "Hello");
    let output = sink.finish();
    assert!(matches!(output.document.get(contents).map(|n| n.kind()), Some(NodeKind::DocumentFragment)));
    assert_eq!(html5lib_tree(&output.document), "#document\n| <template>\n|   content\n|     \"Hello\"");
}

#[test]
fn get_template_contents_of_a_plain_element_is_itself() {
    let mut sink = DomSink::new("about:blank");
    let p = sink.create_element(qname("p"), Vec::new(), false);
    assert_eq!(sink.get_template_contents(p), p);
}

#[test]
fn add_attrs_if_missing_should_keep_first_value_and_add_new_names() {
    let mut sink = DomSink::new("about:blank");
    let root = sink.get_document();
    let html = sink.create_element(qname("html"), vec![attr("lang", "en")], false);
    sink.append_node(root, html);
    sink.add_attrs_if_missing(html, vec![attr("lang", "fr"), attr("dir", "ltr")]);
    let output = sink.finish();
    assert_eq!(output.document.attr(html, "lang"), Some("en"));
    assert_eq!(output.document.attr(html, "dir"), Some("ltr"));
    assert_eq!(html5lib_tree(&output.document), "#document\n| <html>\n|   dir=\"ltr\"\n|   lang=\"en\"");
}

#[test]
fn quirks_mode_should_be_set_without_doctype() {
    let mut sink = DomSink::new("about:blank");
    sink.set_quirks_mode(QuirksMode::Quirks);
    let output = sink.finish();
    assert_eq!(output.document.quirks_mode(), QuirksMode::Quirks);
}

#[test]
fn parse_errors_should_be_collected_not_fatal() {
    let mut sink = DomSink::new("about:blank");
    sink.parse_error("one".to_string());
    sink.parse_error("two".to_string());
    let output = sink.finish();
    assert_eq!(output.parse_errors, vec!["one".to_string(), "two".to_string()]);
}

#[test]
fn doctype_is_appended_to_the_root() {
    let mut sink = DomSink::new("about:blank");
    sink.append_doctype_to_document("html".to_string(), String::new(), String::new());
    let output = sink.finish();
    assert_eq!(html5lib_tree(&output.document), "#document\n| <!DOCTYPE html>");
}

#[test]
fn append_based_on_parent_node_uses_the_parent_when_there_is_one() {
    let mut sink = DomSink::new("about:blank");
    let root = sink.get_document();
    let table = sink.create_element(qname("table"), Vec::new(), false);
    sink.append_node(root, table);
    let prev = sink.create_element(qname("body"), Vec::new(), false);
    sink.append_based_on_parent_node_text(table, prev, "x");
    let orphan = sink.create_element(qname("table"), Vec::new(), false);
    sink.append_based_on_parent_node_text(orphan, prev, "y");
    let output = sink.finish();
    assert_eq!(html5lib_tree(&output.document), "#document\n| \"x\"\n| <table>");
    assert_eq!(output.document.children(prev).len(), 1);
}

#[test]
fn append_before_sibling_node_moves_an_attached_node() {
    let mut sink = DomSink::new("about:blank");
    let root = sink.get_document();
    let a = sink.create_element(qname("a"), Vec::new(), false);
    let b = sink.create_element(qname("b"), Vec::new(), false);
    let c = sink.create_element(qname("c"), Vec::new(), false);
    sink.append_node(root, a);
    sink.append_node(root, b);
    sink.append_node(a, c);
    sink.append_before_sibling_node(a, c);
    let output = sink.finish();
    assert_eq!(html5lib_tree(&output.document), "#document\n| <c>\n| <a>\n| <b>");
}

#[test]
fn append_based_on_parent_node_moves_nodes_too() {
    let mut sink = DomSink::new("about:blank");
    let root = sink.get_document();
    let table = sink.create_element(qname("table"), Vec::new(), false);
    sink.append_node(root, table);
    let prev = sink.create_element(qname("body"), Vec::new(), false);
    let x = sink.create_element(qname("x"), Vec::new(), false);
    sink.append_based_on_parent_node_node(table, prev, x);
    let orphan = sink.create_element(qname("table"), Vec::new(), false);
    let y = sink.create_element(qname("y"), Vec::new(), false);
    sink.append_based_on_parent_node_node(orphan, prev, y);
    let output = sink.finish();
    assert_eq!(html5lib_tree(&output.document), "#document\n| <x>\n| <table>");
    assert_eq!(output.document.children(prev), vec![y]);
}
