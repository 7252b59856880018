//! The walk that finds the nearest items, over sequences.

use vstd::prelude::*;
use crate::frontier::{
    enqueue, lemma_enqueue_entries, lemma_measure_enqueue, measure, start, Frontier, Pending,
};
use crate::kobj::KObj;
use crate::tree::{forest_items, forest_weight, RTreeNode};

verus! {

/// The candidate that the distance function is shown for a node with
/// envelope `mbr`: it has no distance and no table entry yet.
pub open spec fn probe<E>(mbr: E, is_item: bool) -> KObj<E> {
    KObj { distance: 0, is_item, mbr, node: usize::MAX }
}

/// The entry with which `child` enters the queue of `fr`: its distance is
/// `cost(child)`, and its table entry is the next free one.
pub open spec fn entry_for<T, E>(
    fr: Frontier<T, E>,
    child: RTreeNode<T, E>,
    cost: spec_fn(RTreeNode<T, E>) -> u64,
) -> Pending<T, E> {
    Pending {
        cand: KObj {
            distance: cost(child),
            is_item: child is Leaf,
            mbr: child.env(),
            node: if child is Leaf {
                fr.leaves as usize
            } else {
                fr.parents as usize
            },
        },
        node: child,
    }
}

/// The frontier after the walk has met `child`: its entry waits in the
/// queue, and its table has one entry more.
pub open spec fn meet<T, E>(
    fr: Frontier<T, E>,
    child: RTreeNode<T, E>,
    cost: spec_fn(RTreeNode<T, E>) -> u64,
) -> Frontier<T, E> {
    Frontier {
        queue: enqueue(fr.queue, entry_for(fr, child, cost)),
        parents: if child is Leaf {
            fr.parents
        } else {
            fr.parents + 1
        },
        leaves: if child is Leaf {
            fr.leaves + 1
        } else {
            fr.leaves
        },
    }
}

/// The frontier after the walk has met the first `k` of `children`, in their order.
pub open spec fn expand<T, E>(
    fr: Frontier<T, E>,
    children: Seq<RTreeNode<T, E>>,
    k: nat,
    cost: spec_fn(RTreeNode<T, E>) -> u64,
) -> Frontier<T, E>
    decreases k,
{
    if k == 0 || k > children.len() {
        fr
    } else {
        meet(expand(fr, children, (k - 1) as nat, cost), children[k - 1], cost)
    }
}

/// Meeting `k` children adds the weight of their subtrees to the measure.
pub proof fn lemma_expand_measure<T, E>(
    fr: Frontier<T, E>,
    children: Seq<RTreeNode<T, E>>,
    k: nat,
    cost: spec_fn(RTreeNode<T, E>) -> u64,
)
    requires
        k <= children.len(),
    ensures
        measure(expand(fr, children, k, cost).queue) == measure(fr.queue) + forest_weight(
            children,
            k,
        ),
    decreases k,
{
    if k > 0 {
        let before = expand(fr, children, (k - 1) as nat, cost);
        lemma_expand_measure(fr, children, (k - 1) as nat, cost);
        lemma_measure_enqueue(before.queue, entry_for(before, children[k - 1], cost));
    }
}

/// The candidates that a walk accepts from the frontier `fr` on, behind
/// those in `found` that it has accepted before.
///
/// The walk serves the nearest candidate. An item is shown to `judge`, which
/// says whether it is accepted and whether the walk stops there; the walk
/// also stops when `limit` is not zero and that many candidates are accepted.
/// An internal node is replaced by its children. The walk ends when nothing
/// waits.
pub open spec fn walk<T, E>(
    fr: Frontier<T, E>,
    found: Seq<Pending<T, E>>,
    limit: nat,
    cost: spec_fn(RTreeNode<T, E>) -> u64,
    judge: spec_fn(KObj<E>) -> (bool, bool),
) -> Seq<Pending<T, E>>
    decreases measure(fr.queue),
{
    if fr.queue.len() == 0 {
        found
    } else {
        let e = fr.queue.last();
        match e.node {
            RTreeNode::Leaf { .. } => {
                let verdict = judge(e.cand);
                let found = if verdict.0 {
                    found.push(e)
                } else {
                    found
                };
                if verdict.1 || (limit != 0 && found.len() == limit) {
                    found
                } else {
                    walk(fr.rest(), found, limit, cost, judge)
                }
            },
            RTreeNode::Parent { children, .. } => {
                proof {
                    lemma_expand_measure(fr.rest(), children@, children@.len(), cost);
                }
                walk(
                    expand(fr.rest(), children@, children@.len(), cost),
                    found,
                    limit,
                    cost,
                    judge,
                )
            },
        }
    }
}

/// The candidates that a search of the tree with root children `root`
/// accepts, in the order in which it accepts them.
pub open spec fn knn_hits<T, E>(
    root: Seq<RTreeNode<T, E>>,
    limit: nat,
    cost: spec_fn(RTreeNode<T, E>) -> u64,
    judge: spec_fn(KObj<E>) -> (bool, bool),
) -> Seq<Pending<T, E>> {
    walk(expand(start(), root, root.len(), cost), Seq::empty(), limit, cost, judge)
}

/// No candidate of `q` has an item below it.
pub open spec fn barren<T, E>(q: Seq<Pending<T, E>>) -> bool {
    forall|i: int| 0 <= i < q.len() ==> (#[trigger] q[i]).node.items() == 0
}

/// Children without items leave a queue without items so.
pub proof fn lemma_expand_barren<T, E>(
    fr: Frontier<T, E>,
    children: Seq<RTreeNode<T, E>>,
    k: nat,
    cost: spec_fn(RTreeNode<T, E>) -> u64,
)
    requires
        k <= children.len(),
        barren(fr.queue),
        forest_items(children, k) == 0,
    ensures
        barren(expand(fr, children, k, cost).queue),
    decreases k,
{
    if k > 0 {
        let before = expand(fr, children, (k - 1) as nat, cost);
        lemma_expand_barren(fr, children, (k - 1) as nat, cost);
        let e = entry_for(before, children[k - 1], cost);
        lemma_enqueue_entries(before.queue, e);
        let after = enqueue(before.queue, e);
        assert forall|i: int| 0 <= i < after.len() implies (#[trigger] after[i]).node.items()
            == 0 by {
            if after[i] != e {
                let j = choose|j: int| 0 <= j < before.queue.len() && before.queue[j] == after[i];
                assert(before.queue[j].node.items() == 0);
            }
        }
    }
}

/// A walk that starts from a queue without items accepts nothing more.
pub proof fn lemma_walk_barren<T, E>(
    fr: Frontier<T, E>,
    found: Seq<Pending<T, E>>,
    limit: nat,
    cost: spec_fn(RTreeNode<T, E>) -> u64,
    judge: spec_fn(KObj<E>) -> (bool, bool),
)
    requires
        barren(fr.queue),
    ensures
        walk(fr, found, limit, cost, judge) == found,
    decreases measure(fr.queue),
{
    if fr.queue.len() > 0 {
        let e = fr.queue.last();
        let rest = fr.rest();
        assert(e.node.items() == 0);
        match e.node {
            RTreeNode::Leaf { .. } => {},
            RTreeNode::Parent { children, .. } => {
                assert forall|i: int| 0 <= i < rest.queue.len() implies (
                #[trigger] rest.queue[i]).node.items() == 0 by {
                    assert(rest.queue[i] == fr.queue[i]);
                }
                lemma_expand_barren(rest, children@, children@.len(), cost);
                lemma_expand_measure(rest, children@, children@.len(), cost);
                lemma_walk_barren(
                    expand(rest, children@, children@.len(), cost),
                    found,
                    limit,
                    cost,
                    judge,
                );
            },
        }
    }
}

/// A search of a tree without items accepts nothing.
pub proof fn lemma_no_items_no_hits<T, E>(
    root: Seq<RTreeNode<T, E>>,
    limit: nat,
    cost: spec_fn(RTreeNode<T, E>) -> u64,
    judge: spec_fn(KObj<E>) -> (bool, bool),
)
    requires
        forest_items(root, root.len()) == 0,
    ensures
        knn_hits(root, limit, cost, judge) == Seq::<Pending<T, E>>::empty(),
{
    lemma_expand_barren(start(), root, root.len(), cost);
    lemma_walk_barren(expand(start(), root, root.len(), cost), Seq::empty(), limit, cost, judge);
}

/// The candidate of each entry in `q` describes its node: its kind, its
/// envelope and its cost.
pub open spec fn faithful<T, E>(
    q: Seq<Pending<T, E>>,
    cost: spec_fn(RTreeNode<T, E>) -> u64,
) -> bool {
    forall|i: int|
        0 <= i < q.len() ==> {
            &&& (#[trigger] q[i]).cand.distance == cost(q[i].node)
            &&& q[i].cand.is_item == (q[i].node is Leaf)
            &&& q[i].cand.mbr == q[i].node.env()
        }
}

/// Each entry of `hits` stands for an item.
pub open spec fn all_items<T, E>(hits: Seq<Pending<T, E>>) -> bool {
    forall|i: int| 0 <= i < hits.len() ==> (#[trigger] hits[i]).node is Leaf
}

/// The children that a walk meets enter the queue with faithful candidates.
pub proof fn lemma_expand_faithful<T, E>(
    fr: Frontier<T, E>,
    children: Seq<RTreeNode<T, E>>,
    k: nat,
    cost: spec_fn(RTreeNode<T, E>) -> u64,
)
    requires
        k <= children.len(),
        faithful(fr.queue, cost),
    ensures
        faithful(expand(fr, children, k, cost).queue, cost),
    decreases k,
{
    if k > 0 {
        let before = expand(fr, children, (k - 1) as nat, cost);
        lemma_expand_faithful(fr, children, (k - 1) as nat, cost);
        let e = entry_for(before, children[k - 1], cost);
        let after = enqueue(before.queue, e);
        lemma_enqueue_entries(before.queue, e);
        assert forall|i: int| 0 <= i < after.len() implies {
            &&& (#[trigger] after[i]).cand.distance == cost(after[i].node)
            &&& after[i].cand.is_item == (after[i].node is Leaf)
            &&& after[i].cand.mbr == after[i].node.env()
        } by {
            if after[i] != e {
                let j = choose|j: int| 0 <= j < before.queue.len() && before.queue[j] == after[i];
                assert(before.queue[j].cand.distance == cost(before.queue[j].node));
            }
        }
    }
}

/// A queue that has lost its last entry is still faithful.
pub proof fn lemma_rest_faithful<T, E>(
    q: Seq<Pending<T, E>>,
    cost: spec_fn(RTreeNode<T, E>) -> u64,
)
    requires
        q.len() > 0,
        faithful(q, cost),
    ensures
        faithful(q.drop_last(), cost),
{
    let rest = q.drop_last();
    assert forall|i: int| 0 <= i < rest.len() implies {
        &&& (#[trigger] rest[i]).cand.distance == cost(rest[i].node)
        &&& rest[i].cand.is_item == (rest[i].node is Leaf)
        &&& rest[i].cand.mbr == rest[i].node.env()
    } by {
        assert(rest[i] == q[i]);
    }
}

/// A walk from a faithful queue adds faithful entries of items to its hits.
proof fn lemma_walk_faithful<T, E>(
    fr: Frontier<T, E>,
    found: Seq<Pending<T, E>>,
    limit: nat,
    cost: spec_fn(RTreeNode<T, E>) -> u64,
    judge: spec_fn(KObj<E>) -> (bool, bool),
)
    requires
        faithful(fr.queue, cost),
        faithful(found, cost),
        all_items(found),
    ensures
        faithful(walk(fr, found, limit, cost, judge), cost),
        all_items(walk(fr, found, limit, cost, judge)),
    decreases measure(fr.queue),
{
    if fr.queue.len() > 0 {
        let e = fr.queue.last();
        let rest = fr.rest();
        lemma_rest_faithful(fr.queue, cost);
        assert(e.cand.distance == cost(e.node));
        match e.node {
            RTreeNode::Leaf { .. } => {
                let verdict = judge(e.cand);
                let next = if verdict.0 {
                    found.push(e)
                } else {
                    found
                };
                assert forall|i: int| 0 <= i < next.len() implies {
                    &&& (#[trigger] next[i]).cand.distance == cost(next[i].node)
                    &&& next[i].cand.is_item == (next[i].node is Leaf)
                    &&& next[i].cand.mbr == next[i].node.env()
                    &&& next[i].node is Leaf
                } by {
                    if i < found.len() {
                        assert(next[i] == found[i]);
                    }
                }
                if !(verdict.1 || (limit != 0 && next.len() == limit)) {
                    lemma_walk_faithful(rest, next, limit, cost, judge);
                }
            },
            RTreeNode::Parent { children, .. } => {
                lemma_expand_faithful(rest, children@, children@.len(), cost);
                lemma_expand_measure(rest, children@, children@.len(), cost);
                lemma_walk_faithful(
                    expand(rest, children@, children@.len(), cost),
                    found,
                    limit,
                    cost,
                    judge,
                );
            },
        }
    }
}

/// Every hit of a search stands for an item, and its candidate is that of
/// the item: it holds the item's envelope, and its distance is the item's cost.
pub proof fn knn_hits_are_items<T, E>(
    root: Seq<RTreeNode<T, E>>,
    limit: nat,
    cost: spec_fn(RTreeNode<T, E>) -> u64,
    judge: spec_fn(KObj<E>) -> (bool, bool),
)
    ensures
        all_items(knn_hits(root, limit, cost, judge)),
        faithful(knn_hits(root, limit, cost, judge), cost),
{
    lemma_expand_faithful(start(), root, root.len(), cost);
    lemma_walk_faithful(expand(start(), root, root.len(), cost), Seq::empty(), limit, cost, judge);
}

} // verus!
