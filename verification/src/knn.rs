//! The search for the nearest items.

use vstd::prelude::*;
use crate::frontier::{
    cands, lemma_cands_enqueue, lemma_enqueue_entries, lemma_measure_enqueue,
    lemma_weight_positive, measure, start, Frontier, Pending,
};
use crate::kobj::KObj;
use crate::queue::{slot, MinQueue};
use crate::tree::{forest_weight, RTree, RTreeNode};
use crate::walk::{entry_for, expand, knn_hits, lemma_no_items_no_hits, meet, probe, walk};

verus! {

/// What the distance function is shown for the node `n`: the query, the
/// item where `n` is a leaf, and a candidate with the envelope of `n`.
pub open spec fn shown<'a, T, E>(query: &'a T, n: &'a RTreeNode<T, E>) -> (
    &'a T,
    Option<&'a T>,
    KObj<E>,
) {
    match n {
        RTreeNode::Leaf { item, envelope } => (query, Some(item), probe(*envelope, true)),
        RTreeNode::Parent { envelope, .. } => (query, None, probe(*envelope, false)),
    }
}

/// `cost` is what `f` returns for `query`: whatever `f` returns for a node
/// is the `cost` of that node.
pub open spec fn ranks<T, E, F: Fn(&T, Option<&T>, KObj<E>) -> u64>(
    f: F,
    query: &T,
    cost: spec_fn(RTreeNode<T, E>) -> u64,
) -> bool {
    forall|n: RTreeNode<T, E>, d: u64| #[trigger] f.ensures(shown(query, &n), d) ==> d == cost(n)
}

/// `judge` is what `p` returns: whatever `p` returns for a candidate is the
/// verdict of `judge` on it.
pub open spec fn judged<E, P: Fn(KObj<E>) -> (bool, bool)>(
    p: P,
    judge: spec_fn(KObj<E>) -> (bool, bool),
) -> bool {
    forall|o: KObj<E>, v: (bool, bool)| #[trigger] p.ensures((o,), v) ==> v == judge(o)
}

/// The items in `result` are those of the leaves in `hits`, in their order.
pub open spec fn holds<'a, T, E>(result: Seq<&'a T>, hits: Seq<Pending<T, E>>) -> bool {
    &&& result.len() == hits.len()
    &&& forall|i: int| 0 <= i < hits.len() ==> *(#[trigger] result[i]) == hits[i].node->item
}

/// The entry `e` agrees with the tables of a walk: where it stands for an
/// item, its candidate points at that item in `leaves`; where it stands for
/// an internal node, at the children of that node in `parents`.
pub open spec fn tabled<'a, T, E>(
    e: Pending<T, E>,
    parents: Seq<&'a Vec<RTreeNode<T, E>>>,
    leaves: Seq<&'a T>,
) -> bool {
    match e.node {
        RTreeNode::Leaf { item, .. } => e.cand.is_item && e.cand.node < leaves.len()
            && *leaves[e.cand.node as int] == item,
        RTreeNode::Parent { children, .. } => !e.cand.is_item && e.cand.node < parents.len()
            && *parents[e.cand.node as int] == children,
    }
}

/// The queue and the tables of a walk are those of the frontier `fr`.
pub open spec fn linked<'a, T, E>(
    fr: Frontier<T, E>,
    queue: Seq<KObj<E>>,
    parents: Seq<&'a Vec<RTreeNode<T, E>>>,
    leaves: Seq<&'a T>,
) -> bool {
    &&& queue == cands(fr.queue)
    &&& fr.parents == parents.len()
    &&& fr.leaves == leaves.len()
    &&& forall|i: int| 0 <= i < fr.queue.len() ==> tabled(#[trigger] fr.queue[i], parents, leaves)
}

/// The function that gives every node the distance `d`.
pub open spec fn flat<T, E>(d: u64) -> spec_fn(RTreeNode<T, E>) -> u64 {
    |n: RTreeNode<T, E>| d
}

/// A search of `root` that has come to the frontier `fr` with the hits
/// `found`.
pub struct Course<T, E> {
    pub root: Seq<RTreeNode<T, E>>,
    pub limit: nat,
    pub fr: Frontier<T, E>,
    pub found: Seq<Pending<T, E>>,
}

impl<T, E> Course<T, E> {
    /// The walk goes on from the frontier: whatever ranks `f` and verdicts
    /// `p` give, it ends with the hits of the whole search.
    pub open spec fn serving<F: Fn(&T, Option<&T>, KObj<E>) -> u64, P: Fn(KObj<E>) -> (bool, bool)>(
        self,
        query: &T,
        f: F,
        p: P,
    ) -> bool {
        forall|cost: spec_fn(RTreeNode<T, E>) -> u64, judge: spec_fn(KObj<E>) -> (bool, bool)|
            ranks(f, query, cost) && judged(p, judge) ==> #[trigger] knn_hits(
                self.root,
                self.limit,
                cost,
                judge,
            ) == walk(self.fr, self.found, self.limit, cost, judge)
    }

    /// The walk goes on from the frontier once it has met `children`.
    pub open spec fn opening<F: Fn(&T, Option<&T>, KObj<E>) -> u64, P: Fn(KObj<E>) -> (bool, bool)>(
        self,
        query: &T,
        f: F,
        p: P,
        children: Seq<RTreeNode<T, E>>,
    ) -> bool {
        forall|cost: spec_fn(RTreeNode<T, E>) -> u64, judge: spec_fn(KObj<E>) -> (bool, bool)|
            ranks(f, query, cost) && judged(p, judge) ==> #[trigger] knn_hits(
                self.root,
                self.limit,
                cost,
                judge,
            ) == walk(
                expand(self.fr, children, children.len(), cost),
                self.found,
                self.limit,
                cost,
                judge,
            )
    }

    /// The frontier is what `before` becomes when the walk meets the first
    /// `k` of `children`, whatever ranks `f` gives.
    pub open spec fn met<F: Fn(&T, Option<&T>, KObj<E>) -> u64>(
        self,
        query: &T,
        f: F,
        before: Frontier<T, E>,
        children: Seq<RTreeNode<T, E>>,
        k: nat,
    ) -> bool {
        forall|cost: spec_fn(RTreeNode<T, E>) -> u64|
            ranks(f, query, cost) ==> self.fr == #[trigger] expand(before, children, k, cost)
    }

    /// The search is over: its hits are `found`.
    pub open spec fn over<F: Fn(&T, Option<&T>, KObj<E>) -> u64, P: Fn(KObj<E>) -> (bool, bool)>(
        self,
        query: &T,
        f: F,
        p: P,
    ) -> bool {
        forall|cost: spec_fn(RTreeNode<T, E>) -> u64, judge: spec_fn(KObj<E>) -> (bool, bool)|
            ranks(f, query, cost) && judged(p, judge) ==> #[trigger] knn_hits(
                self.root,
                self.limit,
                cost,
                judge,
            ) == self.found
    }

    /// The course after the walk has met `child` and `f` has returned `d` for it.
    pub open spec fn meeting(self, child: RTreeNode<T, E>, d: u64) -> Self {
        Course { fr: meet(self.fr, child, flat(d)), ..self }
    }

    /// The course after the nearest candidate, an item, got the verdict `v`.
    pub open spec fn judging(self, v: (bool, bool)) -> Self {
        Course {
            fr: self.fr.rest(),
            found: if v.0 {
                self.found.push(self.fr.queue.last())
            } else {
                self.found
            },
            ..self
        }
    }

    /// The course after the nearest candidate has left the queue.
    pub open spec fn leaving(self) -> Self {
        Course { fr: self.fr.rest(), ..self }
    }

    /// A search starts by opening the root.
    pub proof fn lemma_start<F: Fn(&T, Option<&T>, KObj<E>) -> u64, P: Fn(KObj<E>) -> (bool, bool)>(
        root: Seq<RTreeNode<T, E>>,
        limit: nat,
        query: &T,
        f: F,
        p: P,
    )
        ensures
            (Course { root, limit, fr: start(), found: Seq::empty() }).opening(query, f, p, root),
    {
    }

    /// Meeting one more child, for which `f` returned `d`.
    pub proof fn lemma_meet<F: Fn(&T, Option<&T>, KObj<E>) -> u64>(
        self,
        query: &T,
        f: F,
        before: Frontier<T, E>,
        children: Seq<RTreeNode<T, E>>,
        k: nat,
        d: u64,
    )
        requires
            k < children.len(),
            self.met(query, f, before, children, k),
            f.ensures(shown(query, &children[k as int]), d),
        ensures
            self.meeting(children[k as int], d).met(query, f, before, children, k + 1),
            measure(self.meeting(children[k as int], d).fr.queue) == measure(self.fr.queue)
                + children[k as int].weight(),
    {
        let child = children[k as int];
        let next = self.meeting(child, d);
        lemma_measure_enqueue(self.fr.queue, entry_for(self.fr, child, flat(d)));
        assert forall|cost: spec_fn(RTreeNode<T, E>) -> u64| ranks(f, query, cost) implies next.fr
            == #[trigger] expand(before, children, k + 1, cost) by {
            assert(self.fr == expand(before, children, k, cost));
            assert(entry_for(self.fr, child, cost) == entry_for(self.fr, child, flat(d)));
            assert(next.fr == meet(self.fr, child, cost));
        }
    }

    /// Once all children are met the walk goes on from the frontier.
    pub proof fn lemma_opened<F: Fn(&T, Option<&T>, KObj<E>) -> u64, P: Fn(KObj<E>) -> (bool, bool)>(
        self,
        query: &T,
        f: F,
        p: P,
        before: Frontier<T, E>,
        children: Seq<RTreeNode<T, E>>,
    )
        requires
            (Course { fr: before, ..self }).opening(query, f, p, children),
            self.met(query, f, before, children, children.len()),
        ensures
            self.serving(query, f, p),
    {
        assert forall|
            cost: spec_fn(RTreeNode<T, E>) -> u64,
            judge: spec_fn(KObj<E>) -> (bool, bool),
        | ranks(f, query, cost) && judged(p, judge) implies #[trigger] knn_hits(
            self.root,
            self.limit,
            cost,
            judge,
        ) == walk(self.fr, self.found, self.limit, cost, judge) by {
            let opened = Course { fr: before, ..self };
            assert(knn_hits(opened.root, opened.limit, cost, judge) == walk(
                expand(before, children, children.len(), cost),
                self.found,
                self.limit,
                cost,
                judge,
            ));
            assert(self.fr == expand(before, children, children.len(), cost));
        }
    }

    /// Serving an item that got the verdict `v`: the search is over where
    /// the verdict stops it or the limit is reached, and goes on otherwise.
    pub proof fn lemma_judge<F: Fn(&T, Option<&T>, KObj<E>) -> u64, P: Fn(KObj<E>) -> (bool, bool)>(
        self,
        query: &T,
        f: F,
        p: P,
        v: (bool, bool),
    )
        requires
            self.serving(query, f, p),
            self.fr.queue.len() > 0,
            self.fr.queue.last().node is Leaf,
            p.ensures((self.fr.queue.last().cand,), v),
        ensures
            v.1 || (self.limit != 0 && self.judging(v).found.len() == self.limit)
                ==> self.judging(v).over(query, f, p),
            !(v.1 || (self.limit != 0 && self.judging(v).found.len() == self.limit))
                ==> self.judging(v).serving(query, f, p),
            measure(self.judging(v).fr.queue) < measure(self.fr.queue),
    {
        let next = self.judging(v);
        lemma_weight_positive(self.fr.queue.last().node);
        assert forall|
            cost: spec_fn(RTreeNode<T, E>) -> u64,
            judge: spec_fn(KObj<E>) -> (bool, bool),
        | ranks(f, query, cost) && judged(p, judge) implies #[trigger] knn_hits(
            self.root,
            self.limit,
            cost,
            judge,
        ) == (if v.1 || (self.limit != 0 && next.found.len() == self.limit) {
            next.found
        } else {
            walk(next.fr, next.found, self.limit, cost, judge)
        }) by {
            assert(judge(self.fr.queue.last().cand) == v);
            assert(knn_hits(self.root, self.limit, cost, judge) == walk(
                self.fr,
                self.found,
                self.limit,
                cost,
                judge,
            ));
        }
    }

    /// Serving an internal node opens it.
    pub proof fn lemma_open<F: Fn(&T, Option<&T>, KObj<E>) -> u64, P: Fn(KObj<E>) -> (bool, bool)>(
        self,
        query: &T,
        f: F,
        p: P,
    )
        requires
            self.serving(query, f, p),
            self.fr.queue.len() > 0,
            self.fr.queue.last().node is Parent,
        ensures
            self.leaving().opening(query, f, p, self.fr.queue.last().node->children@),
            measure(self.leaving().fr.queue) + self.fr.queue.last().node.weight() == measure(
                self.fr.queue,
            ),
            self.fr.queue.last().node.weight() == 1 + forest_weight(
                self.fr.queue.last().node->children@,
                self.fr.queue.last().node->children@.len(),
            ),
    {
        let children = self.fr.queue.last().node->children@;
        assert forall|
            cost: spec_fn(RTreeNode<T, E>) -> u64,
            judge: spec_fn(KObj<E>) -> (bool, bool),
        | ranks(f, query, cost) && judged(p, judge) implies #[trigger] knn_hits(
            self.root,
            self.limit,
            cost,
            judge,
        ) == walk(
            expand(self.fr.rest(), children, children.len(), cost),
            self.found,
            self.limit,
            cost,
            judge,
        ) by {
            assert(knn_hits(self.root, self.limit, cost, judge) == walk(
                self.fr,
                self.found,
                self.limit,
                cost,
                judge,
            ));
        }
    }

    /// With nothing left to serve the search is over.
    pub proof fn lemma_end<F: Fn(&T, Option<&T>, KObj<E>) -> u64, P: Fn(KObj<E>) -> (bool, bool)>(
        self,
        query: &T,
        f: F,
        p: P,
    )
        requires
            self.serving(query, f, p),
            self.fr.queue.len() == 0,
        ensures
            self.over(query, f, p),
    {
        assert forall|
            cost: spec_fn(RTreeNode<T, E>) -> u64,
            judge: spec_fn(KObj<E>) -> (bool, bool),
        | ranks(f, query, cost) && judged(p, judge) implies #[trigger] knn_hits(
            self.root,
            self.limit,
            cost,
            judge,
        ) == self.found by {
            assert(knn_hits(self.root, self.limit, cost, judge) == walk(
                self.fr,
                self.found,
                self.limit,
                cost,
                judge,
            ));
        }
    }
}

/// The tables of a walk still agree with its frontier after the walk has
/// met `child`: its candidate `o` went into the queue, and its table got
/// one entry more, which `o` points at.
proof fn lemma_meet_linked<'a, T, E>(
    fr: Frontier<T, E>,
    child: RTreeNode<T, E>,
    o: KObj<E>,
    queue: Seq<KObj<E>>,
    parents: Seq<&'a Vec<RTreeNode<T, E>>>,
    leaves: Seq<&'a T>,
    grown_parents: Seq<&'a Vec<RTreeNode<T, E>>>,
    grown_leaves: Seq<&'a T>,
)
    requires
        linked(fr, queue, parents, leaves),
        o.is_item == (child is Leaf),
        o.mbr == child.env(),
        child is Leaf ==> o.node == leaves.len() && grown_parents == parents && grown_leaves.len()
            == leaves.len() + 1,
        child is Leaf ==> *grown_leaves[leaves.len() as int] == child->item,
        child is Leaf ==> forall|j: int| 0 <= j < leaves.len() ==> grown_leaves[j] == leaves[j],
        child is Parent ==> o.node == parents.len() && grown_leaves == leaves
            && grown_parents.len() == parents.len() + 1,
        child is Parent ==> *grown_parents[parents.len() as int] == child->children,
        child is Parent ==> forall|j: int|
            0 <= j < parents.len() ==> grown_parents[j] == parents[j],
    ensures
        o == entry_for(fr, child, flat(o.distance)).cand,
        linked(
            meet(fr, child, flat(o.distance)),
            queue.insert(slot(queue, o.distance) as int, o),
            grown_parents,
            grown_leaves,
        ),
{
    let entry = entry_for(fr, child, flat(o.distance));
    let next = meet(fr, child, flat(o.distance));
    assert(entry.cand == o);
    lemma_cands_enqueue(fr.queue, entry);
    lemma_enqueue_entries(fr.queue, entry);
    assert forall|j: int| 0 <= j < next.queue.len() implies tabled(
        #[trigger] next.queue[j],
        grown_parents,
        grown_leaves,
    ) by {
        if next.queue[j] != entry {
            let k = choose|k: int| 0 <= k < fr.queue.len() && fr.queue[k] == next.queue[j];
            assert(tabled(fr.queue[k], parents, leaves));
        }
    }
}

impl<T, E: Copy> RTree<T, E> {
    /// What `knn` returns: whatever ranks `cost` the function `f` gives for
    /// `query` and whatever verdicts `judge` the predicate `p` gives,
    /// `result` holds the items of `knn_hits` for them.
    pub open spec fn knn_returns<'a, F, P>(
        &self,
        query: &T,
        limit: usize,
        f: F,
        p: P,
        result: Seq<&'a T>,
    ) -> bool where F: Fn(&T, Option<&T>, KObj<E>) -> u64, P: Fn(KObj<E>) -> (bool, bool) {
        forall|cost: spec_fn(RTreeNode<T, E>) -> u64, judge: spec_fn(KObj<E>) -> (bool, bool)|
            ranks(f, query, cost) && judged(p, judge) ==> holds(
                result,
                #[trigger] knn_hits(self.root@, limit as nat, cost, judge),
            )
    }

    /// Finds the items nearest to `query`, nearest first.
    ///
    /// Every node that the walk meets is ranked by `fn_dist_score`, which is
    /// shown the query, the item where the node is a leaf, and a candidate
    /// that holds the node's envelope. The walk serves the nearest candidate
    /// that waits: an item is shown to `fn_predicate`, which answers whether
    /// it is accepted and whether the search stops; an internal node gives
    /// way to its children. With `limit` other than zero the search also
    /// stops once `limit` items are accepted.
    ///
    /// The items come back in the order in which they were accepted. A tree
    /// without items is not walked at all.
    pub fn knn<'a, F, P>(
        &'a self,
        query: &T,
        limit: usize,
        fn_dist_score: F,
        fn_predicate: P,
    ) -> (result: Vec<&'a T>) where
        F: Fn(&T, Option<&T>, KObj<E>) -> u64,
        P: Fn(KObj<E>) -> (bool, bool),

        requires
            forall|item: Option<&T>, o: KObj<E>| fn_dist_score.requires((query, item, o)),
            forall|o: KObj<E>| fn_predicate.requires((o,)),
        ensures
            self.knn_returns(query, limit, fn_dist_score, fn_predicate, result@),
            self.spec_size() == 0 ==> result@.len() == 0,
            limit != 0 ==> result@.len() <= limit,
    {
        let mut result: Vec<&'a T> = Vec::new();
        if self.is_empty() {
            proof {
                assert forall|
                    cost: spec_fn(RTreeNode<T, E>) -> u64,
                    judge: spec_fn(KObj<E>) -> (bool, bool),
                | true implies holds(
                    result@,
                    #[trigger] knn_hits(self.root@, limit as nat, cost, judge),
                ) by {
                    lemma_no_items_no_hits(self.root@, limit as nat, cost, judge);
                }
            }
            return result;
        }
        let mut parents: Vec<&'a Vec<RTreeNode<T, E>>> = Vec::new();
        parents.push(&self.root);
        let mut leaves: Vec<&'a T> = Vec::new();
        let mut queue: MinQueue<E> = MinQueue::new();
        let mut current: &'a Vec<RTreeNode<T, E>> = &self.root;
        let ghost mut at = Course {
            root: self.root@,
            limit: limit as nat,
            fr: start(),
            found: Seq::empty(),
        };
        proof {
            assert(queue@ =~= cands(at.fr.queue));
            Course::lemma_start(self.root@, limit as nat, query, fn_dist_score, fn_predicate);
        }
        loop
            invariant
                forall|item: Option<&T>, o: KObj<E>| fn_dist_score.requires((query, item, o)),
                forall|o: KObj<E>| fn_predicate.requires((o,)),
                self.spec_size() != 0,
                at.root == self.root@,
                at.limit == limit,
                queue.wf(),
                linked(at.fr, queue@, parents@, leaves@),
                holds(result@, at.found),
                limit != 0 ==> at.found.len() < limit,
                at.opening(query, fn_dist_score, fn_predicate, current@),
            decreases measure(at.fr.queue) + forest_weight(current@, current@.len()),
        {
            // Meet the children of the current node.
            let ghost before = at.fr;
            let mut i: usize = 0;
            proof {
                assert(at.met(query, fn_dist_score, before, current@, 0));
            }
            while i < current.len()
                invariant
                    forall|item: Option<&T>, o: KObj<E>| fn_dist_score.requires((query, item, o)),
                    i <= current.len(),
                    queue.wf(),
                    linked(at.fr, queue@, parents@, leaves@),
                    at.root == self.root@,
                    at.limit == limit,
                    holds(result@, at.found),
                    limit != 0 ==> at.found.len() < limit,
                    (Course { fr: before, ..at }).opening(
                        query,
                        fn_dist_score,
                        fn_predicate,
                        current@,
                    ),
                    at.met(query, fn_dist_score, before, current@, i as nat),
                    measure(at.fr.queue) == measure(before.queue) + forest_weight(
                        current@,
                        i as nat,
                    ),
                decreases current.len() - i,
            {
                let ghost was = (queue@, parents@, leaves@);
                let o = match &current[i] {
                    RTreeNode::Leaf { item, envelope } => {
                        let mut o = KObj {
                            distance: 0,
                            is_item: true,
                            mbr: *envelope,
                            node: usize::MAX,
                        };
                        o.distance = fn_dist_score(query, Some(item), o);
                        o.node = leaves.len();
                        leaves.push(item);
                        o
                    },
                    RTreeNode::Parent { envelope, children } => {
                        let mut o = KObj {
                            distance: 0,
                            is_item: false,
                            mbr: *envelope,
                            node: usize::MAX,
                        };
                        o.distance = fn_dist_score(query, None, o);
                        o.node = parents.len();
                        parents.push(children);
                        o
                    },
                };
                queue.push(o);
                proof {
                    let child = current@[i as int];
                    at.lemma_meet(query, fn_dist_score, before, current@, i as nat, o.distance);
                    lemma_meet_linked(at.fr, child, o, was.0, was.1, was.2, parents@, leaves@);
                    at = at.meeting(child, o.distance);
                }
                i = i + 1;
            }
            proof {
                at.lemma_opened(query, fn_dist_score, fn_predicate, before, current@);
            }
            // Serve the items that are nearer than every internal node.
            while !queue.is_empty() && queue.peek().unwrap().is_item
                invariant
                    forall|o: KObj<E>| fn_predicate.requires((o,)),
                    self.spec_size() != 0,
                    at.root == self.root@,
                    at.limit == limit,
                    queue.wf(),
                    linked(at.fr, queue@, parents@, leaves@),
                    holds(result@, at.found),
                    limit != 0 ==> at.found.len() < limit,
                    at.serving(query, fn_dist_score, fn_predicate),
                    measure(at.fr.queue) <= measure(before.queue) + forest_weight(
                        current@,
                        current@.len(),
                    ),
                decreases queue@.len(),
            {
                let candidate = queue.pop().unwrap();
                let verdict = fn_predicate(candidate);
                proof {
                    assert(tabled(at.fr.queue.last(), parents@, leaves@));
                    at.lemma_judge(query, fn_dist_score, fn_predicate, verdict);
                    assert(queue@ =~= cands(at.fr.rest().queue));
                }
                if verdict.0 {
                    result.push(leaves[candidate.node]);
                }
                proof {
                    at = at.judging(verdict);
                }
                if verdict.1 {
                    return result;
                }
                if limit != 0 && result.len() == limit {
                    return result;
                }
            }
            // Go on with the nearest internal node, if one is left.
            match queue.pop() {
                None => {
                    proof {
                        at.lemma_end(query, fn_dist_score, fn_predicate);
                    }
                    return result;
                },
                Some(next) => {
                    proof {
                        assert(tabled(at.fr.queue.last(), parents@, leaves@));
                        at.lemma_open(query, fn_dist_score, fn_predicate);
                        assert(queue@ =~= cands(at.fr.rest().queue));
                        at = at.leaving();
                    }
                    current = parents[next.node];
                },
            }
        }
    }
}

} // verus!
