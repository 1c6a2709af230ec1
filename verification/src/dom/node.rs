//! The kind-specific data a DOM node carries: element names and attributes, doctypes,
//! character data.
use vstd::prelude::*;

use super::document::NodeId;

verus! {

/// A qualified name: an optional namespace prefix, a namespace URL (empty for none) and
/// a local name.
#[derive(Debug, Clone)]
pub struct QualName {
    /// The namespace prefix, e.g. `xlink` for an adjusted foreign attribute.
    pub prefix: Option<String>,
    /// The namespace URL; empty when the name has no namespace.
    pub ns: String,
    /// The local name, e.g. `div` or `href`.
    pub local: String,
}

/// A single attribute on an [`Element`].
#[derive(Debug, Clone)]
pub struct Attr {
    /// The attribute's qualified name.
    pub name: QualName,
    /// The attribute's value.
    pub value: String,
}

/// An element's tag name, attributes, and (for `<template>`) its contents subtree.
#[derive(Debug, Clone)]
pub struct Element {
    /// The element's qualified tag name.
    pub name: QualName,
    /// The element's attributes, in source (parse) order.
    pub attrs: Vec<Attr>,
    /// For a `<template>` element, the id of the document fragment holding its contents.
    pub template_contents: Option<NodeId>,
}

/// A `DOCTYPE` declaration, e.g. `<!DOCTYPE html>`.
#[derive(Debug, Clone)]
pub struct Doctype {
    /// The declared root element name.
    pub name: String,
    /// The public identifier, or empty.
    pub public_id: String,
    /// The system identifier, or empty.
    pub system_id: String,
}

/// The kind of a node and the data specific to that kind.
#[derive(Debug, Clone)]
pub enum NodeKind {
    /// The document root: exactly one per document, at arena index 0.
    Document,
    /// A `DOCTYPE` declaration.
    Doctype(Doctype),
    /// An element.
    Element(Element),
    /// A run of character data.
    Text(String),
    /// A comment.
    Comment(String),
    /// A `<?target data?>` processing instruction.
    ProcessingInstruction {
        /// The instruction target.
        target: String,
        /// The instruction data.
        data: String,
    },
    /// A document fragment root, e.g. a `<template>`'s contents.
    DocumentFragment,
}

} // verus!
