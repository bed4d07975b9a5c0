pub mod api;
pub mod tree;
pub mod util;

use vstd::prelude::*;
use crate::tree::HashMapSearchTree;

verus! {

/// Shared state handed to the surrounding service: the frozen search tree.
pub struct AppState {
    pub tree: HashMapSearchTree,
}

} // verus!
