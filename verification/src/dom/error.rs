//! Errors returned by the tree-mutation methods of [`super::document::Document`].
use vstd::prelude::*;

use super::document::NodeId;

verus! {

/// Failure modes for the tree-mutation methods. Every variant carries the offending id(s).
#[derive(Debug, Clone, Copy, PartialEq, Eq, Structural)]
pub enum DomError {
    /// The id does not name a node in this document.
    NoSuchNode(NodeId),
    /// `ancestor` already lies at or above `descendant`, so the attachment would make a
    /// node its own ancestor.
    Cycle {
        /// The node that is already an ancestor (or the node itself) of `descendant`.
        ancestor: NodeId,
        /// The node the operation tried to attach `ancestor` under.
        descendant: NodeId,
    },
    /// The node being attached already has a parent.
    NotDetached(NodeId),
    /// The operation targets or requires the document root, or an anchor with no parent.
    IsDocument,
}

} // verus!
