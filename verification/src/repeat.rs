//! A search depends on its arguments alone.

use vstd::prelude::*;
use crate::kobj::KObj;
use crate::knn::{judged, ranks};
use crate::walk::knn_hits;
use crate::bounded_walk::min_dist_of;
use crate::min_dist::{gauged, halted, scored_by};
use crate::tree::{RTree, RTreeNode};

verus! {

/// Two searches for the nearest items, of the same tree and with the same
/// arguments, return the same items in the same order, where the distance
/// function and the predicate return what some `cost` and `judge` give.
pub proof fn knn_repeats<'a, T, E: Copy, F, P>(
    tree: &RTree<T, E>,
    query: &T,
    limit: usize,
    f: F,
    p: P,
    cost: spec_fn(RTreeNode<T, E>) -> u64,
    judge: spec_fn(KObj<E>) -> (bool, bool),
    first: Seq<&'a T>,
    second: Seq<&'a T>,
) where F: Fn(&T, Option<&T>, KObj<E>) -> u64, P: Fn(KObj<E>) -> (bool, bool)
    requires
        ranks(f, query, cost),
        judged(p, judge),
        tree.knn_returns(query, limit, f, p, first),
        tree.knn_returns(query, limit, f, p, second),
    ensures
        first == second,
{
    let hits = knn_hits(tree.root@, limit as nat, cost, judge);
    assert(first =~= second);
}

/// Two searches for the least distance, of the same tree and with the same
/// arguments, return the same, where the two distance functions and the
/// predicate return what some `gap`, `cost` and `halt` give.
pub proof fn knn_min_dist_repeats<T, E: Copy, B, F, P>(
    tree: &RTree<T, E>,
    query: &T,
    query_box: &E,
    b: B,
    f: F,
    p: P,
    mindist: u64,
    gap: spec_fn(E) -> u64,
    cost: spec_fn(RTreeNode<T, E>) -> u64,
    halt: spec_fn(KObj<E>, u64) -> bool,
    first: Option<u64>,
    second: Option<u64>,
) where B: Fn(&E, &E) -> u64, F: Fn(&T, &T) -> u64, P: Fn(KObj<E>, u64) -> bool
    requires
        gauged(b, query_box, gap),
        scored_by(f, query, cost),
        halted(p, halt),
        tree.knn_min_dist_returns(query, query_box, b, f, p, mindist, first),
        tree.knn_min_dist_returns(query, query_box, b, f, p, mindist, second),
    ensures
        first == second,
{
    let least = min_dist_of(tree.root@, mindist, gap, cost, halt);
}

} // verus!
