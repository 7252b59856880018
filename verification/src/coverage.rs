//! Which items a search returns.

use vstd::multiset::Multiset;
use vstd::prelude::*;
use crate::frontier::{cands, enqueue, lemma_slot_in_range, measure, start, Frontier, Pending};
use crate::kobj::KObj;
use crate::walk::{
    entry_for, expand, faithful, knn_hits, lemma_expand_faithful, lemma_expand_measure,
    lemma_rest_faithful, walk,
};
use crate::queue::slot;
use crate::tree::{forest_items, RTreeNode};

verus! {

/// The candidate of an item with envelope `mbr` at distance `d`, as seen by
/// a predicate that does not look at the table entry.
pub open spec fn item_candidate<E>(d: u64, mbr: E) -> KObj<E> {
    KObj { distance: d, is_item: true, mbr, node: 0 }
}

/// `judge` never asks to stop, and whether it accepts an item does not
/// depend on the item's table entry.
pub open spec fn steady<E>(judge: spec_fn(KObj<E>) -> (bool, bool)) -> bool {
    &&& forall|o: KObj<E>| !(#[trigger] judge(o)).1
    &&& forall|o: KObj<E>|
        o.is_item ==> (#[trigger] judge(o)).0 == judge(item_candidate(o.distance, o.mbr)).0
}

/// The choice of every leaf.
pub open spec fn every<T, E>() -> spec_fn(RTreeNode<T, E>) -> bool {
    |n: RTreeNode<T, E>| true
}

/// The choice of the leaves whose items `judge` accepts when each is ranked
/// by `cost`.
pub open spec fn accepts<T, E>(
    cost: spec_fn(RTreeNode<T, E>) -> u64,
    judge: spec_fn(KObj<E>) -> (bool, bool),
) -> spec_fn(RTreeNode<T, E>) -> bool {
    |n: RTreeNode<T, E>| judge(item_candidate(cost(n), n.env())).0
}

impl<T, E> RTreeNode<T, E> {
    /// The leaves in the subtree of `self` that `keep` chooses, each as
    /// often as it occurs.
    pub open spec fn kept(self, keep: spec_fn(RTreeNode<T, E>) -> bool) -> Multiset<
        RTreeNode<T, E>,
    >
        decreases self,
    {
        match self {
            RTreeNode::Leaf { .. } => if keep(self) {
                Multiset::singleton(self)
            } else {
                Multiset::empty()
            },
            RTreeNode::Parent { children, .. } => forest_kept(children@, children@.len(), keep),
        }
    }
}

/// The leaves in the subtrees of the first `k` of `nodes` that `keep`
/// chooses: what a scan of all items finds.
pub open spec fn forest_kept<T, E>(
    nodes: Seq<RTreeNode<T, E>>,
    k: nat,
    keep: spec_fn(RTreeNode<T, E>) -> bool,
) -> Multiset<RTreeNode<T, E>>
    decreases nodes, k,
{
    if k == 0 || k > nodes.len() {
        Multiset::empty()
    } else {
        forest_kept(nodes, (k - 1) as nat, keep).add(nodes[k - 1].kept(keep))
    }
}

/// The leaves that `keep` chooses among those that the walk can still
/// reach through `q`.
pub open spec fn queue_kept<T, E>(
    q: Seq<Pending<T, E>>,
    keep: spec_fn(RTreeNode<T, E>) -> bool,
) -> Multiset<RTreeNode<T, E>>
    decreases q.len(),
{
    if q.len() == 0 {
        Multiset::empty()
    } else {
        queue_kept(q.drop_last(), keep).add(q.last().node.kept(keep))
    }
}

/// The leaves of `hits`, each as often as it was hit.
pub open spec fn hit_leaves<T, E>(hits: Seq<Pending<T, E>>) -> Multiset<RTreeNode<T, E>>
    decreases hits.len(),
{
    if hits.len() == 0 {
        Multiset::empty()
    } else {
        hit_leaves(hits.drop_last()).insert(hits.last().node)
    }
}

/// There are as many hit leaves as hits.
pub proof fn lemma_hit_leaves_len<T, E>(hits: Seq<Pending<T, E>>)
    ensures
        hit_leaves(hits).len() == hits.len(),
    decreases hits.len(),
{
    if hits.len() > 0 {
        lemma_hit_leaves_len(hits.drop_last());
    }
}

/// An entry that enters anywhere adds the chosen leaves below its node.
proof fn lemma_queue_kept_insert<T, E>(
    q: Seq<Pending<T, E>>,
    i: int,
    e: Pending<T, E>,
    keep: spec_fn(RTreeNode<T, E>) -> bool,
)
    requires
        0 <= i <= q.len(),
    ensures
        queue_kept(q.insert(i, e), keep) == queue_kept(q, keep).add(e.node.kept(keep)),
    decreases q.len() - i,
{
    let r = q.insert(i, e);
    if i == q.len() {
        assert(r.drop_last() =~= q);
    } else {
        assert(r.drop_last() =~= q.drop_last().insert(i, e));
        lemma_queue_kept_insert(q.drop_last(), i, e, keep);
        assert(queue_kept(r, keep) =~= queue_kept(q, keep).add(e.node.kept(keep)));
    }
}

/// Meeting `k` children adds the chosen leaves below them.
proof fn lemma_expand_kept<T, E>(
    fr: Frontier<T, E>,
    children: Seq<RTreeNode<T, E>>,
    k: nat,
    cost: spec_fn(RTreeNode<T, E>) -> u64,
    keep: spec_fn(RTreeNode<T, E>) -> bool,
)
    requires
        k <= children.len(),
    ensures
        queue_kept(expand(fr, children, k, cost).queue, keep) == queue_kept(fr.queue, keep).add(
            forest_kept(children, k, keep),
        ),
    decreases k,
{
    if k == 0 {
        assert(queue_kept(fr.queue, keep) =~= queue_kept(fr.queue, keep).add(
            forest_kept(children, k, keep),
        ));
    } else {
        let before = expand(fr, children, (k - 1) as nat, cost);
        lemma_expand_kept(fr, children, (k - 1) as nat, cost, keep);
        let e = entry_for(before, children[k - 1], cost);
        let after = enqueue(before.queue, e);
        lemma_slot_in_range(before.queue, e);
        lemma_queue_kept_insert(
            before.queue,
            slot(cands(before.queue), e.cand.distance) as int,
            e,
            keep,
        );
        assert(queue_kept(after, keep) =~= queue_kept(fr.queue, keep).add(
            forest_kept(children, k, keep),
        ));
    }
}

/// A walk adds to its hits only leaves that it can reach, and none more
/// often than it can reach it.
proof fn lemma_walk_within<T, E>(
    fr: Frontier<T, E>,
    found: Seq<Pending<T, E>>,
    limit: nat,
    cost: spec_fn(RTreeNode<T, E>) -> u64,
    judge: spec_fn(KObj<E>) -> (bool, bool),
)
    ensures
        hit_leaves(walk(fr, found, limit, cost, judge)).subset_of(
            hit_leaves(found).add(queue_kept(fr.queue, every())),
        ),
    decreases measure(fr.queue),
{
    if fr.queue.len() > 0 {
        let e = fr.queue.last();
        let rest = fr.rest();
        match e.node {
            RTreeNode::Leaf { .. } => {
                let verdict = judge(e.cand);
                let next = if verdict.0 {
                    found.push(e)
                } else {
                    found
                };
                if verdict.0 {
                    assert(next.drop_last() =~= found);
                }
                assert(hit_leaves(next).add(queue_kept(rest.queue, every())).subset_of(
                    hit_leaves(found).add(queue_kept(fr.queue, every())),
                ));
                if !(verdict.1 || (limit != 0 && next.len() == limit)) {
                    lemma_walk_within(rest, next, limit, cost, judge);
                }
            },
            RTreeNode::Parent { children, .. } => {
                lemma_expand_kept(rest, children@, children@.len(), cost, every());
                lemma_expand_measure(rest, children@, children@.len(), cost);
                lemma_walk_within(
                    expand(rest, children@, children@.len(), cost),
                    found,
                    limit,
                    cost,
                    judge,
                );
            },
        }
    }
}

/// The hits of a search are leaves of the tree, and no leaf is hit more
/// often than it occurs in the tree.
pub proof fn knn_hits_are_leaves<T, E>(
    root: Seq<RTreeNode<T, E>>,
    limit: nat,
    cost: spec_fn(RTreeNode<T, E>) -> u64,
    judge: spec_fn(KObj<E>) -> (bool, bool),
)
    ensures
        hit_leaves(knn_hits(root, limit, cost, judge)).subset_of(
            forest_kept(root, root.len(), every()),
        ),
{
    let first: Frontier<T, E> = start();
    lemma_expand_kept(first, root, root.len(), cost, every());
    lemma_walk_within(expand(first, root, root.len(), cost), Seq::empty(), limit, cost, judge);
}

/// A walk without a limit that nothing stops adds to its hits every
/// accepted leaf that it can reach, and none else.
proof fn lemma_walk_accepts<T, E>(
    fr: Frontier<T, E>,
    found: Seq<Pending<T, E>>,
    cost: spec_fn(RTreeNode<T, E>) -> u64,
    judge: spec_fn(KObj<E>) -> (bool, bool),
)
    requires
        steady(judge),
        faithful(fr.queue, cost),
    ensures
        hit_leaves(walk(fr, found, 0, cost, judge)) == hit_leaves(found).add(
            queue_kept(fr.queue, accepts(cost, judge)),
        ),
    decreases measure(fr.queue),
{
    let keep = accepts(cost, judge);
    if fr.queue.len() == 0 {
        assert(hit_leaves(found) =~= hit_leaves(found).add(queue_kept(fr.queue, keep)));
    } else {
        let e = fr.queue.last();
        let rest = fr.rest();
        assert(e.cand.distance == cost(e.node));
        lemma_rest_faithful(fr.queue, cost);
        match e.node {
            RTreeNode::Leaf { .. } => {
                let verdict = judge(e.cand);
                let next = if verdict.0 {
                    found.push(e)
                } else {
                    found
                };
                if verdict.0 {
                    assert(next.drop_last() =~= found);
                }
                assert(keep(e.node) == verdict.0);
                lemma_walk_accepts(rest, next, cost, judge);
                assert(hit_leaves(next).add(queue_kept(rest.queue, keep)) =~= hit_leaves(found).add(
                    queue_kept(fr.queue, keep),
                ));
            },
            RTreeNode::Parent { children, .. } => {
                lemma_expand_kept(rest, children@, children@.len(), cost, keep);
                lemma_expand_faithful(rest, children@, children@.len(), cost);
                lemma_expand_measure(rest, children@, children@.len(), cost);
                lemma_walk_accepts(
                    expand(rest, children@, children@.len(), cost),
                    found,
                    cost,
                    judge,
                );
            },
        }
    }
}

/// Where the predicate never stops the search and does not look at the
/// table entries, a search without a limit hits every leaf whose item the
/// predicate accepts, each once, and no other.
pub proof fn knn_hits_each_accepted_item<T, E>(
    root: Seq<RTreeNode<T, E>>,
    cost: spec_fn(RTreeNode<T, E>) -> u64,
    judge: spec_fn(KObj<E>) -> (bool, bool),
)
    requires
        steady(judge),
    ensures
        hit_leaves(knn_hits(root, 0, cost, judge)) == forest_kept(
            root,
            root.len(),
            accepts(cost, judge),
        ),
{
    let first: Frontier<T, E> = start();
    let keep = accepts(cost, judge);
    lemma_expand_kept(first, root, root.len(), cost, keep);
    lemma_expand_faithful(first, root, root.len(), cost);
    lemma_walk_accepts(expand(first, root, root.len(), cost), Seq::empty(), cost, judge);
    assert(Multiset::<RTreeNode<T, E>>::empty().add(
        Multiset::empty().add(forest_kept(root, root.len(), keep)),
    ) =~= forest_kept(root, root.len(), keep));
}

/// Where `keep` chooses every leaf, it chooses as many leaves below `n` as
/// `n` holds items.
pub proof fn lemma_kept_all<T, E>(n: RTreeNode<T, E>, keep: spec_fn(RTreeNode<T, E>) -> bool)
    requires
        forall|m: RTreeNode<T, E>| #[trigger] keep(m),
    ensures
        n.kept(keep).len() == n.items(),
    decreases n, 0nat,
{
    match n {
        RTreeNode::Leaf { .. } => {},
        RTreeNode::Parent { children, .. } => {
            lemma_forest_kept_all(children@, children@.len(), keep);
        },
    }
}

/// Where `keep` chooses every leaf, it chooses as many leaves below the
/// first `k` of `nodes` as they hold items.
pub proof fn lemma_forest_kept_all<T, E>(
    nodes: Seq<RTreeNode<T, E>>,
    k: nat,
    keep: spec_fn(RTreeNode<T, E>) -> bool,
)
    requires
        k <= nodes.len(),
        forall|m: RTreeNode<T, E>| #[trigger] keep(m),
    ensures
        forest_kept(nodes, k, keep).len() == forest_items(nodes, k),
    decreases nodes, k,
{
    if k > 0 {
        lemma_forest_kept_all(nodes, (k - 1) as nat, keep);
        lemma_kept_all(nodes[k - 1], keep);
    }
}

} // verus!
