//! The hierarchy of envelopes that a search walks.
//!
//! A tree is a list of top-level nodes. A node is a leaf, which holds one
//! item with its envelope, or a parent, which holds an envelope and the
//! nodes below it. The type of the envelopes is the caller's: the searches
//! hand envelopes on and never look into them.

use vstd::prelude::*;
use crate::kobj::KObj;

verus! {

/// A node of the hierarchy.
pub enum RTreeNode<T, E> {
    /// One stored item and its envelope.
    Leaf { item: T, envelope: E },
    /// An internal node: the envelope of all that lies below it, and its children.
    Parent { envelope: E, children: Vec<RTreeNode<T, E>> },
}

/// The hierarchy, given by the children of its root.
pub struct RTree<T, E> {
    pub root: Vec<RTreeNode<T, E>>,
}

impl<T, E> RTreeNode<T, E> {
    /// The node's envelope.
    pub open spec fn env(self) -> E {
        match self {
            RTreeNode::Leaf { envelope, .. } => envelope,
            RTreeNode::Parent { envelope, .. } => envelope,
        }
    }

    /// The number of nodes in the subtree of `self`, itself included.
    pub open spec fn weight(self) -> nat
        decreases self,
    {
        match self {
            RTreeNode::Leaf { .. } => 1,
            RTreeNode::Parent { children, .. } => 1 + forest_weight(children@, children@.len()),
        }
    }

    /// The number of items in the subtree of `self`.
    pub open spec fn items(self) -> nat
        decreases self,
    {
        match self {
            RTreeNode::Leaf { .. } => 1,
            RTreeNode::Parent { children, .. } => forest_items(children@, children@.len()),
        }
    }
}

/// The number of nodes in the subtrees of the first `k` of `nodes`.
pub open spec fn forest_weight<T, E>(nodes: Seq<RTreeNode<T, E>>, k: nat) -> nat
    decreases nodes, k,
{
    if k == 0 || k > nodes.len() {
        0
    } else {
        forest_weight(nodes, (k - 1) as nat) + nodes[k - 1].weight()
    }
}

/// The number of items in the subtrees of the first `k` of `nodes`.
pub open spec fn forest_items<T, E>(nodes: Seq<RTreeNode<T, E>>, k: nat) -> nat
    decreases nodes, k,
{
    if k == 0 || k > nodes.len() {
        0
    } else {
        forest_items(nodes, (k - 1) as nat) + nodes[k - 1].items()
    }
}

/// More nodes hold at least as many items.
pub proof fn lemma_forest_items_grow<T, E>(nodes: Seq<RTreeNode<T, E>>, j: nat, k: nat)
    requires
        j <= k <= nodes.len(),
    ensures
        forest_items(nodes, j) <= forest_items(nodes, k),
    decreases k,
{
    if j < k {
        lemma_forest_items_grow(nodes, j, (k - 1) as nat);
    }
}

/// Counts the items below `nodes`.
fn count_items<T, E>(nodes: &Vec<RTreeNode<T, E>>) -> (n: usize)
    requires
        forest_items(nodes@, nodes@.len()) <= usize::MAX,
    ensures
        n == forest_items(nodes@, nodes@.len()),
    decreases nodes,
{
    let mut n: usize = 0;
    let mut i: usize = 0;
    while i < nodes.len()
        invariant
            i <= nodes.len(),
            n == forest_items(nodes@, i as nat),
            forest_items(nodes@, nodes@.len()) <= usize::MAX,
        decreases nodes.len() - i,
    {
        proof {
            lemma_forest_items_grow(nodes@, (i + 1) as nat, nodes@.len());
            assert(forest_items(nodes@, (i + 1) as nat) == forest_items(nodes@, i as nat)
                + nodes@[i as int].items());
        }
        match &nodes[i] {
            RTreeNode::Leaf { .. } => {
                n = n + 1;
            },
            RTreeNode::Parent { children, .. } => {
                n = n + count_items(children);
            },
        }
        i = i + 1;
    }
    n
}

/// Whether any item lies below `nodes`.
fn holds_item<T, E>(nodes: &Vec<RTreeNode<T, E>>) -> (b: bool)
    ensures
        b == (forest_items(nodes@, nodes@.len()) > 0),
    decreases nodes,
{
    let mut i: usize = 0;
    while i < nodes.len()
        invariant
            i <= nodes.len(),
            forest_items(nodes@, i as nat) == 0,
        decreases nodes.len() - i,
    {
        proof {
            lemma_forest_items_grow(nodes@, (i + 1) as nat, nodes@.len());
            assert(forest_items(nodes@, (i + 1) as nat) == forest_items(nodes@, i as nat)
                + nodes@[i as int].items());
        }
        match &nodes[i] {
            RTreeNode::Leaf { .. } => {
                return true;
            },
            RTreeNode::Parent { children, .. } => {
                if holds_item(children) {
                    return true;
                }
            },
        }
        i = i + 1;
    }
    false
}

impl<T, E> RTree<T, E> {
    /// The number of items that the tree holds.
    pub open spec fn spec_size(&self) -> nat {
        forest_items(self.root@, self.root@.len())
    }

    /// A tree without nodes.
    pub fn new() -> (tree: Self)
        ensures
            tree.root@.len() == 0,
            tree.spec_size() == 0,
    {
        RTree { root: Vec::new() }
    }

    /// The children of the root.
    pub fn root(&self) -> (nodes: &Vec<RTreeNode<T, E>>)
        ensures
            *nodes == self.root,
    {
        &self.root
    }

    /// The number of items that the tree holds.
    pub fn size(&self) -> (n: usize)
        requires
            self.spec_size() <= usize::MAX,
        ensures
            n == self.spec_size(),
    {
        count_items(&self.root)
    }

    /// Whether the tree holds no item.
    pub fn is_empty(&self) -> (b: bool)
        ensures
            b == (self.spec_size() == 0),
    {
        !holds_item(&self.root)
    }

    /// Removes every node.
    pub fn clear(&mut self)
        ensures
            final(self).root@.len() == 0,
            final(self).spec_size() == 0,
    {
        self.root = Vec::new();
    }

    /// The index that stands in a candidate for "no table entry".
    pub fn max_output_sentinel() -> (n: usize)
        ensures
            n == usize::MAX,
    {
        usize::MAX
    }

    /// The predicate that accepts every item and never asks to stop.
    pub fn knn_predicate(o: KObj<E>) -> (r: (bool, bool))
        ensures
            r == (true, false),
    {
        (true, false)
    }
}

} // verus!
