//! A handle together with its arena.

use crate::allocator::{Allocator, NodePtr, Tree};
use vstd::prelude::*;

verus! {

/// A node and the arena it lives in.
#[derive(Clone, Copy)]
pub struct Node<'a> {
    pub allocator: &'a Allocator,
    pub node: NodePtr,
}

impl<'a> Node<'a> {
    /// The arena is in order and the handle names one of its nodes.
    pub open spec fn wf(&self) -> bool {
        self.allocator.wf() && self.allocator@.contains(self.node)
    }

    /// The value that the node stands for.
    pub open spec fn tree(&self) -> Tree {
        self.allocator@.tree(self.node)
    }

    /// The node `node` of `allocator`.
    pub fn new(allocator: &'a Allocator, node: NodePtr) -> (n: Node<'a>)
        ensures
            n.allocator == allocator,
            n.node == node,
    {
        Node { allocator, node }
    }
}

} // verus!
