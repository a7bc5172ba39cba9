//! Core of a keyboard-driven editor for labeled, ordered, variable-arity
//! trees: a tree value type, a path-of-child-indices focus address with a
//! checked movement algebra (parent, child, siblings, pre-order successor
//! and predecessor), and a structural edit that wraps the focused subtree
//! in new ancestor context.

pub mod editor;
pub mod laws;
pub mod model;
pub mod tree;
