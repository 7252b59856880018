//! What the search for the least distance ends with.

use vstd::prelude::*;
use crate::bounded_walk::{
    expand_bounded, lemma_expand_bounded_measure, min_dist_of, ranked_entry, walk_bounded, Bounded,
};
use crate::bounds::{forest_admissible, forest_floor, least};
use crate::frontier::{
    cands, enqueue, lemma_enqueue_entries, lemma_slot_in_range, measure, start, Pending,
};
use crate::kobj::KObj;
use crate::queue::slot;
use crate::tree::RTreeNode;

verus! {

/// The distance of each node's envelope from the query, where `gap` gives
/// that of each envelope.
pub open spec fn gap_at<T, E>(gap: spec_fn(E) -> u64) -> spec_fn(RTreeNode<T, E>) -> u64 {
    |n: RTreeNode<T, E>| gap(n.env())
}

/// The least `cost` of an item that the walk can still reach through `e`.
/// An item that waits has been scored, so nothing is left to reach.
pub open spec fn pending_floor<T, E>(
    e: Pending<T, E>,
    cost: spec_fn(RTreeNode<T, E>) -> u64,
) -> u64 {
    if e.node is Parent {
        e.node.floor(cost)
    } else {
        u64::MAX
    }
}

/// The least `cost` of an item that the walk can still reach through `q`.
pub open spec fn queue_floor<T, E>(
    q: Seq<Pending<T, E>>,
    cost: spec_fn(RTreeNode<T, E>) -> u64,
) -> u64
    decreases q.len(),
{
    if q.len() == 0 {
        u64::MAX
    } else {
        least(queue_floor(q.drop_last(), cost), pending_floor(q.last(), cost))
    }
}

/// Each node in `q` has `low` as a lower bound throughout its subtree.
pub open spec fn guarded<T, E>(
    q: Seq<Pending<T, E>>,
    low: spec_fn(RTreeNode<T, E>) -> u64,
    cost: spec_fn(RTreeNode<T, E>) -> u64,
) -> bool {
    forall|i: int| 0 <= i < q.len() ==> (#[trigger] q[i]).node.admissible(low, cost)
}

/// An entry that enters anywhere lowers the floor of the queue to its own
/// where that is less.
proof fn lemma_queue_floor_insert<T, E>(
    q: Seq<Pending<T, E>>,
    i: int,
    e: Pending<T, E>,
    cost: spec_fn(RTreeNode<T, E>) -> u64,
)
    requires
        0 <= i <= q.len(),
    ensures
        queue_floor(q.insert(i, e), cost) == least(queue_floor(q, cost), pending_floor(e, cost)),
    decreases q.len() - i,
{
    let r = q.insert(i, e);
    if i == q.len() {
        assert(r.drop_last() =~= q);
    } else {
        assert(r.drop_last() =~= q.drop_last().insert(i, e));
        lemma_queue_floor_insert(q.drop_last(), i, e, cost);
    }
}

/// Meeting `k` children whose envelopes are lower bounds loses no item
/// that could lower the distance: the least of the bound and the floor of
/// the queue takes in the floor of the children.
proof fn lemma_expand_floor<T, E>(
    st: Bounded<T, E>,
    children: Seq<RTreeNode<T, E>>,
    k: nat,
    gap: spec_fn(E) -> u64,
    cost: spec_fn(RTreeNode<T, E>) -> u64,
)
    requires
        k <= children.len(),
        guarded(st.fr.queue, gap_at(gap), cost),
        forest_admissible(children, gap_at(gap), cost),
    ensures
        guarded(expand_bounded(st, children, k, gap, cost).fr.queue, gap_at(gap), cost),
        least(
            expand_bounded(st, children, k, gap, cost).mindist,
            queue_floor(expand_bounded(st, children, k, gap, cost).fr.queue, cost),
        ) == least(
            least(st.mindist, queue_floor(st.fr.queue, cost)),
            forest_floor(children, k, cost),
        ),
    decreases k,
{
    if k > 0 {
        let before = expand_bounded(st, children, (k - 1) as nat, gap, cost);
        lemma_expand_floor(st, children, (k - 1) as nat, gap, cost);
        let child = children[k - 1];
        assert(child.admissible(gap_at(gap), cost));
        assert(gap(child.env()) <= child.floor(cost));
        if gap(child.env()) < before.mindist {
            let e = ranked_entry(before.fr, child, gap, cost);
            let after = enqueue(before.fr.queue, e);
            lemma_slot_in_range(before.fr.queue, e);
            lemma_queue_floor_insert(
                before.fr.queue,
                slot(cands(before.fr.queue), e.cand.distance) as int,
                e,
                cost,
            );
            lemma_enqueue_entries(before.fr.queue, e);
            assert forall|i: int| 0 <= i < after.len() implies (#[trigger] after[i]).node.admissible(
                gap_at(gap),
                cost,
            ) by {
                if after[i] != e {
                    let j = choose|j: int|
                        0 <= j < before.fr.queue.len() && before.fr.queue[j] == after[i];
                    assert(before.fr.queue[j].node.admissible(gap_at(gap), cost));
                }
            }
        }
    }
}

/// A walk that nothing stops, over envelopes that are lower bounds, ends
/// with the least of its bound and the floor of its queue.
proof fn lemma_walk_least<T, E>(
    st: Bounded<T, E>,
    gap: spec_fn(E) -> u64,
    cost: spec_fn(RTreeNode<T, E>) -> u64,
    halt: spec_fn(KObj<E>, u64) -> bool,
)
    requires
        forall|o: KObj<E>, m: u64| !(#[trigger] halt(o, m)),
        guarded(st.fr.queue, gap_at(gap), cost),
    ensures
        walk_bounded(st, gap, cost, halt) == least(st.mindist, queue_floor(st.fr.queue, cost)),
    decreases measure(st.fr.queue),
{
    if st.fr.queue.len() > 0 {
        let e = st.fr.queue.last();
        let rest = st.rest();
        assert forall|i: int| 0 <= i < rest.fr.queue.len() implies (
        #[trigger] rest.fr.queue[i]).node.admissible(gap_at(gap), cost) by {
            assert(rest.fr.queue[i] == st.fr.queue[i]);
        }
        match e.node {
            RTreeNode::Leaf { .. } => {
                lemma_walk_least(rest, gap, cost, halt);
            },
            RTreeNode::Parent { children, .. } => {
                assert(e.node.admissible(gap_at(gap), cost));
                lemma_expand_floor(rest, children@, children@.len(), gap, cost);
                lemma_expand_bounded_measure(rest, children@, children@.len(), gap, cost);
                lemma_walk_least(
                    expand_bounded(rest, children@, children@.len(), gap, cost),
                    gap,
                    cost,
                    halt,
                );
            },
        }
    }
}

/// Where the envelope of no node is farther from the query than an item
/// below that node, and the predicate never stops the search, the search
/// ends with what a scan of all items finds: the least of the bound that it
/// started with and the distances of the items.
pub proof fn min_dist_is_least<T, E>(
    root: Seq<RTreeNode<T, E>>,
    mindist: u64,
    gap: spec_fn(E) -> u64,
    cost: spec_fn(RTreeNode<T, E>) -> u64,
    halt: spec_fn(KObj<E>, u64) -> bool,
)
    requires
        forall|o: KObj<E>, m: u64| !(#[trigger] halt(o, m)),
        forest_admissible(root, gap_at(gap), cost),
    ensures
        min_dist_of(root, mindist, gap, cost, halt) == least(
            mindist,
            forest_floor(root, root.len(), cost),
        ),
{
    let first = Bounded { fr: start::<T, E>(), mindist };
    lemma_expand_floor(first, root, root.len(), gap, cost);
    lemma_walk_least(expand_bounded(first, root, root.len(), gap, cost), gap, cost, halt);
}

/// Meeting `k` children never raises the bound, and never lowers it below
/// the floor of what was reachable.
proof fn lemma_expand_between<T, E>(
    st: Bounded<T, E>,
    children: Seq<RTreeNode<T, E>>,
    k: nat,
    gap: spec_fn(E) -> u64,
    cost: spec_fn(RTreeNode<T, E>) -> u64,
)
    requires
        k <= children.len(),
    ensures
        expand_bounded(st, children, k, gap, cost).mindist <= st.mindist,
        least(
            expand_bounded(st, children, k, gap, cost).mindist,
            queue_floor(expand_bounded(st, children, k, gap, cost).fr.queue, cost),
        ) >= least(
            least(st.mindist, queue_floor(st.fr.queue, cost)),
            forest_floor(children, k, cost),
        ),
    decreases k,
{
    if k > 0 {
        let before = expand_bounded(st, children, (k - 1) as nat, gap, cost);
        lemma_expand_between(st, children, (k - 1) as nat, gap, cost);
        let child = children[k - 1];
        assert(forest_floor(children, k, cost) == least(
            forest_floor(children, (k - 1) as nat, cost),
            child.floor(cost),
        ));
        if child is Leaf {
            assert(child.floor(cost) == cost(child));
        }
        if gap(child.env()) < before.mindist {
            let e = ranked_entry(before.fr, child, gap, cost);
            lemma_slot_in_range(before.fr.queue, e);
            lemma_queue_floor_insert(
                before.fr.queue,
                slot(cands(before.fr.queue), e.cand.distance) as int,
                e,
                cost,
            );
        }
    }
}

/// A walk ends with a distance between the floor of what it can reach and
/// its bound.
proof fn lemma_walk_between<T, E>(
    st: Bounded<T, E>,
    gap: spec_fn(E) -> u64,
    cost: spec_fn(RTreeNode<T, E>) -> u64,
    halt: spec_fn(KObj<E>, u64) -> bool,
)
    ensures
        least(st.mindist, queue_floor(st.fr.queue, cost)) <= walk_bounded(st, gap, cost, halt)
            <= st.mindist,
    decreases measure(st.fr.queue),
{
    if st.fr.queue.len() > 0 {
        let e = st.fr.queue.last();
        let rest = st.rest();
        match e.node {
            RTreeNode::Leaf { .. } => {
                if !halt(e.cand, st.mindist) {
                    lemma_walk_between(rest, gap, cost, halt);
                }
            },
            RTreeNode::Parent { children, .. } => {
                lemma_expand_between(rest, children@, children@.len(), gap, cost);
                lemma_expand_bounded_measure(rest, children@, children@.len(), gap, cost);
                lemma_walk_between(
                    expand_bounded(rest, children@, children@.len(), gap, cost),
                    gap,
                    cost,
                    halt,
                );
            },
        }
    }
}

/// Whatever the functions and the predicate of a search are, it ends with
/// a distance that is not above the bound that it started with, and not
/// below what a scan of all items finds.
pub proof fn min_dist_is_between<T, E>(
    root: Seq<RTreeNode<T, E>>,
    mindist: u64,
    gap: spec_fn(E) -> u64,
    cost: spec_fn(RTreeNode<T, E>) -> u64,
    halt: spec_fn(KObj<E>, u64) -> bool,
)
    ensures
        least(mindist, forest_floor(root, root.len(), cost)) <= min_dist_of(
            root,
            mindist,
            gap,
            cost,
            halt,
        ) <= mindist,
{
    let first = Bounded { fr: start::<T, E>(), mindist };
    lemma_expand_between(first, root, root.len(), gap, cost);
    lemma_walk_between(expand_bounded(first, root, root.len(), gap, cost), gap, cost, halt);
}

} // verus!
