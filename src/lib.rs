//! Binary search trees over `i32` keys: a self-balancing AVL tree and a plain,
//! unbalanced search tree.
use vstd::prelude::*;

pub mod avl;
pub mod bst;

verus! {

} // verus!
