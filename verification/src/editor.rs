//! The state an editing session keeps: the document tree and the focus
//! address. The surrounding user interface owns one value of this type,
//! moves the focus on keyboard input, and re-reads the tree to paint it.

use vstd::prelude::*;

use crate::model::big_tree_spec;
use crate::tree::{big_tree, Index, Tree};

verus! {

/// The whole state of one editing session.
pub struct App {
    pub root: Tree,
    pub focus: Index,
}

impl Default for App {
    /// The seed document: a single chain of depth 20, focused at the root.
    fn default() -> (r: App)
        ensures
            r.root@ == big_tree_spec(1, 20),
            r.focus@ == Seq::<nat>::empty(),
    {
        App { root: big_tree(1, 20), focus: Index::default() }
    }
}

} // verus!
