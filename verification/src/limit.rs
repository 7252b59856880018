//! How many items a search returns.

use vstd::prelude::*;
use crate::coverage::{
    accepts, forest_kept, knn_hits_each_accepted_item, lemma_forest_kept_all,
    lemma_hit_leaves_len, steady,
};
use crate::frontier::{measure, start, Frontier, Pending};
use crate::kobj::KObj;
use crate::walk::{expand, knn_hits, lemma_expand_measure, walk};
use crate::tree::{forest_items, RTreeNode};

verus! {

/// The lesser of two counts.
pub open spec fn at_most(a: nat, b: nat) -> nat {
    if a <= b {
        a
    } else {
        b
    }
}

/// A walk keeps what it has found and adds to it.
pub proof fn lemma_walk_extends<T, E>(
    fr: Frontier<T, E>,
    found: Seq<Pending<T, E>>,
    limit: nat,
    cost: spec_fn(RTreeNode<T, E>) -> u64,
    judge: spec_fn(KObj<E>) -> (bool, bool),
)
    ensures
        found.len() <= walk(fr, found, limit, cost, judge).len(),
        walk(fr, found, limit, cost, judge).take(found.len() as int) == found,
    decreases measure(fr.queue),
{
    let all = walk(fr, found, limit, cost, judge);
    if fr.queue.len() == 0 {
        assert(all.take(found.len() as int) =~= found);
    } else {
        let e = fr.queue.last();
        let rest = fr.rest();
        match e.node {
            RTreeNode::Leaf { .. } => {
                let verdict = judge(e.cand);
                let next = if verdict.0 {
                    found.push(e)
                } else {
                    found
                };
                if verdict.1 || (limit != 0 && next.len() == limit) {
                    assert(next.take(found.len() as int) =~= found);
                } else {
                    lemma_walk_extends(rest, next, limit, cost, judge);
                    assert(all.take(found.len() as int) =~= all.take(next.len() as int).take(
                        found.len() as int,
                    ));
                    assert(next.take(found.len() as int) =~= found);
                }
            },
            RTreeNode::Parent { children, .. } => {
                lemma_expand_measure(rest, children@, children@.len(), cost);
                lemma_walk_extends(
                    expand(rest, children@, children@.len(), cost),
                    found,
                    limit,
                    cost,
                    judge,
                );
            },
        }
    }
}

/// A walk with a limit finds the first `limit` of what the walk without a
/// limit finds, or all of it where that is less.
pub proof fn lemma_walk_prefix<T, E>(
    fr: Frontier<T, E>,
    found: Seq<Pending<T, E>>,
    limit: nat,
    cost: spec_fn(RTreeNode<T, E>) -> u64,
    judge: spec_fn(KObj<E>) -> (bool, bool),
)
    requires
        limit > 0,
        found.len() < limit,
    ensures
        walk(fr, found, limit, cost, judge) == walk(fr, found, 0, cost, judge).take(
            at_most(limit, walk(fr, found, 0, cost, judge).len()) as int,
        ),
    decreases measure(fr.queue),
{
    let all = walk(fr, found, 0, cost, judge);
    let some = walk(fr, found, limit, cost, judge);
    if fr.queue.len() == 0 {
        assert(all.take(all.len() as int) =~= all);
    } else {
        let e = fr.queue.last();
        let rest = fr.rest();
        match e.node {
            RTreeNode::Leaf { .. } => {
                let verdict = judge(e.cand);
                let next = if verdict.0 {
                    found.push(e)
                } else {
                    found
                };
                if verdict.1 {
                    assert(all.take(all.len() as int) =~= all);
                } else if next.len() == limit {
                    lemma_walk_extends(rest, next, 0, cost, judge);
                } else {
                    lemma_walk_prefix(rest, next, limit, cost, judge);
                }
            },
            RTreeNode::Parent { children, .. } => {
                lemma_expand_measure(rest, children@, children@.len(), cost);
                lemma_walk_prefix(
                    expand(rest, children@, children@.len(), cost),
                    found,
                    limit,
                    cost,
                    judge,
                );
            },
        }
    }
}

/// A search with a limit returns no more than `limit` hits: the first
/// `limit` of what the search without a limit returns, or all of it where
/// that is less.
pub proof fn knn_limit_is_prefix<T, E>(
    root: Seq<RTreeNode<T, E>>,
    limit: nat,
    cost: spec_fn(RTreeNode<T, E>) -> u64,
    judge: spec_fn(KObj<E>) -> (bool, bool),
)
    requires
        limit > 0,
    ensures
        knn_hits(root, limit, cost, judge).len() == at_most(
            limit,
            knn_hits(root, 0, cost, judge).len(),
        ),
        knn_hits(root, limit, cost, judge) == knn_hits(root, 0, cost, judge).take(
            at_most(limit, knn_hits(root, 0, cost, judge).len()) as int,
        ),
{
    lemma_walk_prefix(
        expand(start(), root, root.len(), cost),
        Seq::empty(),
        limit,
        cost,
        judge,
    );
}

/// Where the predicate never stops the search and does not look at the
/// table entries, a search without a limit returns as many items as the
/// predicate accepts, and a search with a limit returns `limit` items
/// wherever at least that many are accepted, and as many as are accepted
/// otherwise.
pub proof fn knn_fills_limit<T, E>(
    root: Seq<RTreeNode<T, E>>,
    limit: nat,
    cost: spec_fn(RTreeNode<T, E>) -> u64,
    judge: spec_fn(KObj<E>) -> (bool, bool),
)
    requires
        steady(judge),
    ensures
        limit == 0 ==> knn_hits(root, limit, cost, judge).len() == forest_kept(
            root,
            root.len(),
            accepts(cost, judge),
        ).len(),
        limit > 0 ==> knn_hits(root, limit, cost, judge).len() == at_most(
            limit,
            forest_kept(root, root.len(), accepts(cost, judge)).len(),
        ),
{
    knn_hits_each_accepted_item(root, cost, judge);
    lemma_hit_leaves_len(knn_hits(root, 0, cost, judge));
    if limit > 0 {
        knn_limit_is_prefix(root, limit, cost, judge);
    }
}

/// With a predicate that accepts every item and never stops the search, a
/// search without a limit returns as many items as the tree holds, and a
/// search with a limit returns `limit` items, or as many as the tree holds
/// where these are fewer.
pub proof fn knn_counts_all<T, E>(
    root: Seq<RTreeNode<T, E>>,
    limit: nat,
    cost: spec_fn(RTreeNode<T, E>) -> u64,
    judge: spec_fn(KObj<E>) -> (bool, bool),
)
    requires
        forall|o: KObj<E>| #[trigger] judge(o) == (true, false),
    ensures
        limit == 0 ==> knn_hits(root, limit, cost, judge).len() == forest_items(root, root.len()),
        limit > 0 ==> knn_hits(root, limit, cost, judge).len() == at_most(
            limit,
            forest_items(root, root.len()),
        ),
{
    knn_fills_limit(root, limit, cost, judge);
    lemma_forest_kept_all(root, root.len(), accepts(cost, judge));
}

} // verus!
