//! The walk that finds the least distance, over sequences.

use vstd::prelude::*;
use crate::frontier::{enqueue, lemma_measure_enqueue, measure, start, Frontier, Pending};
use crate::kobj::KObj;
use crate::tree::{forest_weight, RTreeNode};

verus! {

/// A frontier and the least distance known so far.
pub struct Bounded<T, E> {
    pub fr: Frontier<T, E>,
    pub mindist: u64,
}

impl<T, E> Bounded<T, E> {
    /// The state after the nearest candidate has left the queue.
    pub open spec fn rest(self) -> Self {
        Bounded { fr: self.fr.rest(), mindist: self.mindist }
    }
}

/// The entry with which `child` enters the queue of `fr`. An item is ranked
/// by `cost`; an internal node by `gap`, the distance of its envelope from
/// the query's, and it gets the next free entry of the table.
pub open spec fn ranked_entry<T, E>(
    fr: Frontier<T, E>,
    child: RTreeNode<T, E>,
    gap: spec_fn(E) -> u64,
    cost: spec_fn(RTreeNode<T, E>) -> u64,
) -> Pending<T, E> {
    Pending {
        cand: KObj {
            distance: if child is Leaf {
                cost(child)
            } else {
                gap(child.env())
            },
            is_item: child is Leaf,
            mbr: child.env(),
            node: if child is Leaf {
                usize::MAX
            } else {
                fr.parents as usize
            },
        },
        node: child,
    }
}

/// The state after the walk has met `child`. A child whose envelope is not
/// nearer than the least distance known is passed over. An item that is
/// nearer than that distance lowers it.
pub open spec fn meet_bounded<T, E>(
    st: Bounded<T, E>,
    child: RTreeNode<T, E>,
    gap: spec_fn(E) -> u64,
    cost: spec_fn(RTreeNode<T, E>) -> u64,
) -> Bounded<T, E> {
    if gap(child.env()) < st.mindist {
        Bounded {
            fr: Frontier {
                queue: enqueue(st.fr.queue, ranked_entry(st.fr, child, gap, cost)),
                parents: if child is Leaf {
                    st.fr.parents
                } else {
                    st.fr.parents + 1
                },
                leaves: st.fr.leaves,
            },
            mindist: if child is Leaf && cost(child) < st.mindist {
                cost(child)
            } else {
                st.mindist
            },
        }
    } else {
        st
    }
}

/// The state after the walk has met the first `k` of `children`, in their order.
pub open spec fn expand_bounded<T, E>(
    st: Bounded<T, E>,
    children: Seq<RTreeNode<T, E>>,
    k: nat,
    gap: spec_fn(E) -> u64,
    cost: spec_fn(RTreeNode<T, E>) -> u64,
) -> Bounded<T, E>
    decreases k,
{
    if k == 0 || k > children.len() {
        st
    } else {
        meet_bounded(
            expand_bounded(st, children, (k - 1) as nat, gap, cost),
            children[k - 1],
            gap,
            cost,
        )
    }
}

/// Meeting `k` children adds at most the weight of their subtrees to the measure.
pub proof fn lemma_expand_bounded_measure<T, E>(
    st: Bounded<T, E>,
    children: Seq<RTreeNode<T, E>>,
    k: nat,
    gap: spec_fn(E) -> u64,
    cost: spec_fn(RTreeNode<T, E>) -> u64,
)
    requires
        k <= children.len(),
    ensures
        measure(expand_bounded(st, children, k, gap, cost).fr.queue) <= measure(st.fr.queue)
            + forest_weight(children, k),
    decreases k,
{
    if k > 0 {
        let before = expand_bounded(st, children, (k - 1) as nat, gap, cost);
        lemma_expand_bounded_measure(st, children, (k - 1) as nat, gap, cost);
        lemma_measure_enqueue(
            before.fr.queue,
            ranked_entry(before.fr, children[k - 1], gap, cost),
        );
    }
}

/// The least distance that a walk ends with, from the state `st` on.
///
/// The walk serves the nearest candidate. After an item, `halt` is shown
/// the item's candidate and the least distance known, and says whether the
/// walk stops there. An internal node is replaced by those of its children
/// that can still lower the distance. The walk ends when nothing waits.
pub open spec fn walk_bounded<T, E>(
    st: Bounded<T, E>,
    gap: spec_fn(E) -> u64,
    cost: spec_fn(RTreeNode<T, E>) -> u64,
    halt: spec_fn(KObj<E>, u64) -> bool,
) -> u64
    decreases measure(st.fr.queue),
{
    if st.fr.queue.len() == 0 {
        st.mindist
    } else {
        let e = st.fr.queue.last();
        let rest = st.rest();
        match e.node {
            RTreeNode::Leaf { .. } => {
                if halt(e.cand, st.mindist) {
                    st.mindist
                } else {
                    walk_bounded(rest, gap, cost, halt)
                }
            },
            RTreeNode::Parent { children, .. } => {
                proof {
                    lemma_expand_bounded_measure(rest, children@, children@.len(), gap, cost);
                }
                walk_bounded(
                    expand_bounded(rest, children@, children@.len(), gap, cost),
                    gap,
                    cost,
                    halt,
                )
            },
        }
    }
}

/// The least distance that a search of the tree with root children `root`
/// ends with, when it starts with the bound `mindist`.
pub open spec fn min_dist_of<T, E>(
    root: Seq<RTreeNode<T, E>>,
    mindist: u64,
    gap: spec_fn(E) -> u64,
    cost: spec_fn(RTreeNode<T, E>) -> u64,
    halt: spec_fn(KObj<E>, u64) -> bool,
) -> u64 {
    walk_bounded(
        expand_bounded(Bounded { fr: start(), mindist }, root, root.len(), gap, cost),
        gap,
        cost,
        halt,
    )
}

} // verus!
