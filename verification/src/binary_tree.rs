//! The nodes that code trees are made of.
use vstd::prelude::*;

verus! {

/// A node of a binary tree that owns its two subtrees.
#[derive(Debug, PartialEq, Eq, PartialOrd, Ord)]
pub struct Node<V> {
    pub value: V,
    pub left: Option<Box<Node<V>>>,
    pub right: Option<Box<Node<V>>>,
}

} // verus!
