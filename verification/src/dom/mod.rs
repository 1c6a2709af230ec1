//! The arena DOM: a flat vector of nodes addressed by [`document::NodeId`], the tree
//! mutations every later stage builds on, iterative traversal, and the html5lib
//! tree-construction dump.

pub mod document;
pub mod error;
pub mod node;
pub mod serialize;
pub mod traverse;
