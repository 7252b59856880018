//! The least distance below a node, and lower bounds for it.

use vstd::prelude::*;
use crate::tree::RTreeNode;

verus! {

/// The lesser of two distances.
pub open spec fn least(a: u64, b: u64) -> u64 {
    if a <= b {
        a
    } else {
        b
    }
}

impl<T, E> RTreeNode<T, E> {
    /// The least `cost` of an item in the subtree of `self`; the greatest
    /// distance there is where the subtree holds no item.
    pub open spec fn floor(self, cost: spec_fn(RTreeNode<T, E>) -> u64) -> u64
        decreases self,
    {
        match self {
            RTreeNode::Leaf { .. } => cost(self),
            RTreeNode::Parent { children, .. } => forest_floor(children@, children@.len(), cost),
        }
    }

    /// `low` is a lower bound throughout the subtree of `self`: at no node
    /// of it is `low` greater than the `cost` of an item below that node.
    pub open spec fn admissible(
        self,
        low: spec_fn(RTreeNode<T, E>) -> u64,
        cost: spec_fn(RTreeNode<T, E>) -> u64,
    ) -> bool
        decreases self,
    {
        &&& low(self) <= self.floor(cost)
        &&& match self {
            RTreeNode::Leaf { .. } => true,
            RTreeNode::Parent { children, .. } => forall|i: int|
                0 <= i < children@.len() ==> (#[trigger] children@[i]).admissible(low, cost),
        }
    }
}

/// The least `cost` of an item in the subtrees of the first `k` of `nodes`:
/// what a scan of all their items finds.
pub open spec fn forest_floor<T, E>(
    nodes: Seq<RTreeNode<T, E>>,
    k: nat,
    cost: spec_fn(RTreeNode<T, E>) -> u64,
) -> u64
    decreases nodes, k,
{
    if k == 0 || k > nodes.len() {
        u64::MAX
    } else {
        least(forest_floor(nodes, (k - 1) as nat, cost), nodes[k - 1].floor(cost))
    }
}

/// `low` is a lower bound throughout the subtrees of `nodes`.
pub open spec fn forest_admissible<T, E>(
    nodes: Seq<RTreeNode<T, E>>,
    low: spec_fn(RTreeNode<T, E>) -> u64,
    cost: spec_fn(RTreeNode<T, E>) -> u64,
) -> bool {
    forall|i: int| 0 <= i < nodes.len() ==> (#[trigger] nodes[i]).admissible(low, cost)
}

/// The floor of a forest is at most the floor of each of its trees.
pub proof fn lemma_forest_floor_below<T, E>(
    nodes: Seq<RTreeNode<T, E>>,
    k: nat,
    cost: spec_fn(RTreeNode<T, E>) -> u64,
    i: int,
)
    requires
        0 <= i < k <= nodes.len(),
    ensures
        forest_floor(nodes, k, cost) <= nodes[i].floor(cost),
    decreases k,
{
    if i < k - 1 {
        lemma_forest_floor_below(nodes, (k - 1) as nat, cost, i);
    }
}

} // verus!
