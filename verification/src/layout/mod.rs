//! Layout: app units, geometry, fragments, shaped text, whitespace processing, the box
//! tree, block and inline layout, and the text dumps.

pub mod au;
pub mod block;
pub mod box_dump;
pub mod box_tree;
pub mod box_model;
pub mod dump;
pub mod error;
pub mod fragment;
pub mod geom;
pub mod inline;
pub mod lines;
pub mod resolve;
pub mod text;
pub mod whitespace;
pub mod walk_bound;
