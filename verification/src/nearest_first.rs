//! The order in which a search returns its items.

use vstd::prelude::*;
use crate::bounds::{forest_admissible, lemma_forest_floor_below};
use crate::frontier::{
    cands, enqueue, lemma_cands_enqueue, lemma_enqueue_entries, measure, start, Frontier, Pending,
};
use crate::kobj::KObj;
use crate::walk::{entry_for, expand, knn_hits, lemma_expand_measure, walk};
use crate::coverage::{accepts, forest_kept, hit_leaves, knn_hits_each_accepted_item, steady};
use crate::limit::knn_limit_is_prefix;
use crate::queue::descending;
use crate::tree::RTreeNode;

verus! {

/// The distances in `hits` never fall from one hit to the next.
pub open spec fn ascending<T, E>(hits: Seq<Pending<T, E>>) -> bool {
    forall|i: int, j: int| 0 <= i <= j < hits.len() ==> hits[i].cand.distance <= hits[j].cand.distance
}

/// The entry `e` carries the cost of its node, no internal node below it is
/// ranked above an item of its own, and no item below it is nearer than `b`.
pub open spec fn ready_entry<T, E>(
    e: Pending<T, E>,
    cost: spec_fn(RTreeNode<T, E>) -> u64,
    b: u64,
) -> bool {
    &&& e.cand.distance == cost(e.node)
    &&& e.node.admissible(cost, cost)
    &&& b <= e.node.floor(cost)
}

/// The queue `q` is in order and each of its entries is ready.
pub open spec fn ready<T, E>(
    q: Seq<Pending<T, E>>,
    cost: spec_fn(RTreeNode<T, E>) -> u64,
    b: u64,
) -> bool {
    &&& descending(cands(q))
    &&& forall|i: int| 0 <= i < q.len() ==> ready_entry(#[trigger] q[i], cost, b)
}

/// Children that are ready enter a ready queue and leave it ready.
proof fn lemma_expand_ready<T, E>(
    fr: Frontier<T, E>,
    children: Seq<RTreeNode<T, E>>,
    k: nat,
    cost: spec_fn(RTreeNode<T, E>) -> u64,
    b: u64,
)
    requires
        k <= children.len(),
        ready(fr.queue, cost, b),
        forest_admissible(children, cost, cost),
        forall|i: int| 0 <= i < children.len() ==> b <= (#[trigger] children[i]).floor(cost),
    ensures
        ready(expand(fr, children, k, cost).queue, cost, b),
    decreases k,
{
    if k > 0 {
        let before = expand(fr, children, (k - 1) as nat, cost);
        lemma_expand_ready(fr, children, (k - 1) as nat, cost, b);
        let e = entry_for(before, children[k - 1], cost);
        lemma_cands_enqueue(before.queue, e);
        lemma_enqueue_entries(before.queue, e);
        let after = enqueue(before.queue, e);
        assert(children[k - 1].admissible(cost, cost));
        assert forall|i: int| 0 <= i < after.len() implies ready_entry(
            #[trigger] after[i],
            cost,
            b,
        ) by {
            if after[i] != e {
                let j = choose|j: int| 0 <= j < before.queue.len() && before.queue[j] == after[i];
                assert(ready_entry(before.queue[j], cost, b));
            }
        }
    }
}

/// A walk from a ready queue adds its hits in the order of their
/// distances, behind hits that are no farther than `b`.
proof fn lemma_walk_ascending<T, E>(
    fr: Frontier<T, E>,
    found: Seq<Pending<T, E>>,
    limit: nat,
    cost: spec_fn(RTreeNode<T, E>) -> u64,
    judge: spec_fn(KObj<E>) -> (bool, bool),
    b: u64,
)
    requires
        ready(fr.queue, cost, b),
        ascending(found),
        forall|i: int| 0 <= i < found.len() ==> (#[trigger] found[i]).cand.distance <= b,
    ensures
        ascending(walk(fr, found, limit, cost, judge)),
    decreases measure(fr.queue),
{
    if fr.queue.len() > 0 {
        let e = fr.queue.last();
        let rest = fr.rest();
        assert(ready_entry(e, cost, b));
        assert(cands(rest.queue) =~= cands(fr.queue).drop_last());
        match e.node {
            RTreeNode::Leaf { .. } => {
                let m = e.cand.distance;
                let verdict = judge(e.cand);
                let next = if verdict.0 {
                    found.push(e)
                } else {
                    found
                };
                assert forall|i: int| 0 <= i < rest.queue.len() implies ready_entry(
                    #[trigger] rest.queue[i],
                    cost,
                    m,
                ) by {
                    assert(rest.queue[i] == fr.queue[i]);
                    assert(ready_entry(fr.queue[i], cost, b));
                    assert(cands(fr.queue)[i].distance >= cands(fr.queue)[fr.queue.len() - 1].distance);
                }
                if !(verdict.1 || (limit != 0 && next.len() == limit)) {
                    lemma_walk_ascending(rest, next, limit, cost, judge, m);
                }
            },
            RTreeNode::Parent { children, .. } => {
                assert forall|i: int| 0 <= i < rest.queue.len() implies ready_entry(
                    #[trigger] rest.queue[i],
                    cost,
                    b,
                ) by {
                    assert(rest.queue[i] == fr.queue[i]);
                }
                assert forall|i: int| 0 <= i < children@.len() implies b <= (
                #[trigger] children@[i]).floor(cost) by {
                    lemma_forest_floor_below(children@, children@.len(), cost, i);
                }
                lemma_expand_ready(rest, children@, children@.len(), cost, b);
                lemma_expand_measure(rest, children@, children@.len(), cost);
                lemma_walk_ascending(
                    expand(rest, children@, children@.len(), cost),
                    found,
                    limit,
                    cost,
                    judge,
                    b,
                );
            },
        }
    }
}

/// Where no internal node of the tree is ranked above an item below it, a
/// search returns its items nearest first: from one hit to the next the
/// distance never falls.
pub proof fn knn_nearest_first<T, E>(
    root: Seq<RTreeNode<T, E>>,
    limit: nat,
    cost: spec_fn(RTreeNode<T, E>) -> u64,
    judge: spec_fn(KObj<E>) -> (bool, bool),
)
    requires
        forest_admissible(root, cost, cost),
    ensures
        ascending(knn_hits(root, limit, cost, judge)),
{
    let first: Frontier<T, E> = start();
    assert(cands(first.queue) =~= Seq::<KObj<E>>::empty());
    lemma_expand_ready(first, root, root.len(), cost, 0);
    lemma_walk_ascending(
        expand(first, root, root.len(), cost),
        Seq::empty(),
        limit,
        cost,
        judge,
        0,
    );
}

/// Where no internal node of the tree is ranked above an item below it, and
/// the predicate never stops the search and does not look at the table
/// entries, a search returns the nearest of the items that the predicate
/// accepts: its hits are the first of the hits of a search without a limit,
/// which are all the accepted leaves, and none of the hits that the limit
/// cuts off is nearer than one that is returned.
pub proof fn knn_returns_the_nearest<T, E>(
    root: Seq<RTreeNode<T, E>>,
    limit: nat,
    cost: spec_fn(RTreeNode<T, E>) -> u64,
    judge: spec_fn(KObj<E>) -> (bool, bool),
)
    requires
        forest_admissible(root, cost, cost),
        steady(judge),
    ensures
        hit_leaves(knn_hits(root, 0, cost, judge)) == forest_kept(
            root,
            root.len(),
            accepts(cost, judge),
        ),
        knn_hits(root, limit, cost, judge).len() <= knn_hits(root, 0, cost, judge).len(),
        knn_hits(root, limit, cost, judge) == knn_hits(root, 0, cost, judge).take(
            knn_hits(root, limit, cost, judge).len() as int,
        ),
        forall|i: int, j: int|
            0 <= i < knn_hits(root, limit, cost, judge).len() <= j < knn_hits(
                root,
                0,
                cost,
                judge,
            ).len() ==> knn_hits(root, limit, cost, judge)[i].cand.distance <= knn_hits(
                root,
                0,
                cost,
                judge,
            )[j].cand.distance,
{
    let all = knn_hits(root, 0, cost, judge);
    knn_hits_each_accepted_item(root, cost, judge);
    knn_nearest_first(root, 0, cost, judge);
    if limit > 0 {
        knn_limit_is_prefix(root, limit, cost, judge);
    } else {
        assert(all.take(all.len() as int) =~= all);
    }
}

} // verus!
