//! The state of a best-first walk, as the contracts of the searches see it.
//!
//! A walk keeps a queue of candidates and two tables, one of the internal
//! nodes and one of the items that it has met. In the contracts each
//! candidate of the queue comes with the node that it stands for, and of
//! the tables only the lengths remain.

use vstd::prelude::*;
use crate::kobj::KObj;
use crate::queue::{descending, lemma_insert_keeps_order, lemma_slot_bounds, slot};
use crate::tree::RTreeNode;

verus! {

/// A candidate that waits, and the node that it stands for.
pub struct Pending<T, E> {
    pub cand: KObj<E>,
    pub node: RTreeNode<T, E>,
}

/// The queue of a walk and the lengths of its two tables.
pub struct Frontier<T, E> {
    /// The candidates that wait, from the farthest to the nearest.
    pub queue: Seq<Pending<T, E>>,
    /// The number of internal nodes met so far, the root included.
    pub parents: nat,
    /// The number of items met so far.
    pub leaves: nat,
}

impl<T, E> Frontier<T, E> {
    /// The frontier after the nearest candidate has left the queue.
    pub open spec fn rest(self) -> Self {
        Frontier { queue: self.queue.drop_last(), parents: self.parents, leaves: self.leaves }
    }
}

/// The candidates of `q` without their nodes.
pub open spec fn cands<T, E>(q: Seq<Pending<T, E>>) -> Seq<KObj<E>> {
    Seq::new(q.len(), |i: int| q[i].cand)
}

/// `q` with `e` added at the slot of its distance.
pub open spec fn enqueue<T, E>(q: Seq<Pending<T, E>>, e: Pending<T, E>) -> Seq<Pending<T, E>> {
    q.insert(slot(cands(q), e.cand.distance) as int, e)
}

/// The number of nodes that a walk may still visit: those in the subtrees of
/// the candidates that wait.
pub open spec fn measure<T, E>(q: Seq<Pending<T, E>>) -> nat
    decreases q.len(),
{
    if q.len() == 0 {
        0
    } else {
        measure(q.drop_last()) + q.last().node.weight()
    }
}

/// The walk at its start: nothing waits, and the root is the one internal
/// node that was met.
pub open spec fn start<T, E>() -> Frontier<T, E> {
    Frontier { queue: Seq::empty(), parents: 1, leaves: 0 }
}

/// Adding a candidate to the queue adds its candidate to the candidates.
pub proof fn lemma_cands_enqueue<T, E>(q: Seq<Pending<T, E>>, e: Pending<T, E>)
    ensures
        cands(enqueue(q, e)) == cands(q).insert(slot(cands(q), e.cand.distance) as int, e.cand),
        enqueue(q, e).len() == q.len() + 1,
        descending(cands(q)) ==> descending(cands(enqueue(q, e))),
{
    lemma_slot_bounds(cands(q), e.cand.distance);
    assert(cands(enqueue(q, e)) =~= cands(q).insert(
        slot(cands(q), e.cand.distance) as int,
        e.cand,
    ));
    if descending(cands(q)) {
        lemma_insert_keeps_order(cands(q), e.cand);
    }
}

/// The slot of an entry lies within the queue.
pub proof fn lemma_slot_in_range<T, E>(q: Seq<Pending<T, E>>, e: Pending<T, E>)
    ensures
        slot(cands(q), e.cand.distance) <= q.len(),
{
    lemma_slot_bounds(cands(q), e.cand.distance);
}

/// A candidate that enters anywhere adds the weight of its node.
pub proof fn lemma_measure_insert<T, E>(q: Seq<Pending<T, E>>, i: int, e: Pending<T, E>)
    requires
        0 <= i <= q.len(),
    ensures
        measure(q.insert(i, e)) == measure(q) + e.node.weight(),
    decreases q.len() - i,
{
    let r = q.insert(i, e);
    if i == q.len() {
        assert(r.drop_last() =~= q);
    } else {
        assert(r.drop_last() =~= q.drop_last().insert(i, e));
        lemma_measure_insert(q.drop_last(), i, e);
    }
}

/// A candidate that enters at its slot adds the weight of its node.
pub proof fn lemma_measure_enqueue<T, E>(q: Seq<Pending<T, E>>, e: Pending<T, E>)
    ensures
        measure(enqueue(q, e)) == measure(q) + e.node.weight(),
{
    lemma_slot_bounds(cands(q), e.cand.distance);
    lemma_measure_insert(q, slot(cands(q), e.cand.distance) as int, e);
}

/// Every entry of `enqueue(q, e)` is `e` or an entry of `q`, and every entry
/// of `q` and `e` itself are entries of it.
pub proof fn lemma_enqueue_entries<T, E>(q: Seq<Pending<T, E>>, e: Pending<T, E>)
    ensures
        forall|i: int|
            0 <= i < enqueue(q, e).len() ==> #[trigger] enqueue(q, e)[i] == e || q.contains(
                enqueue(q, e)[i],
            ),
        enqueue(q, e).contains(e),
        forall|i: int| 0 <= i < q.len() ==> enqueue(q, e).contains(#[trigger] q[i]),
{
    lemma_slot_bounds(cands(q), e.cand.distance);
    let k = slot(cands(q), e.cand.distance) as int;
    let r = enqueue(q, e);
    assert forall|i: int| 0 <= i < r.len() implies #[trigger] r[i] == e || q.contains(r[i]) by {
        if i < k {
            assert(r[i] == q[i]);
        } else if i > k {
            assert(r[i] == q[i - 1]);
        }
    }
    assert(r[k] == e);
    assert forall|i: int| 0 <= i < q.len() implies r.contains(#[trigger] q[i]) by {
        if i < k {
            assert(r[i] == q[i]);
        } else {
            assert(r[i + 1] == q[i]);
        }
    }
}

/// The weight of a node is at least one.
pub proof fn lemma_weight_positive<T, E>(n: RTreeNode<T, E>)
    ensures
        n.weight() >= 1,
{
    match n {
        RTreeNode::Leaf { .. } => {},
        RTreeNode::Parent { .. } => {},
    }
}

} // verus!
