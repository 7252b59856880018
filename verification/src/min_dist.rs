//! The search for the least distance.

use vstd::prelude::*;
use crate::bounded_walk::{
    expand_bounded, meet_bounded, min_dist_of, ranked_entry, walk_bounded, Bounded,
};
use crate::frontier::{
    cands, enqueue, lemma_cands_enqueue, lemma_enqueue_entries, lemma_measure_enqueue,
    lemma_weight_positive, measure, start, Frontier, Pending,
};
use crate::kobj::KObj;
use crate::queue::{slot, MinQueue};
use crate::tree::{forest_weight, RTree, RTreeNode};

verus! {

/// `gap` is what `b` returns for `query_box`: whatever `b` returns for an
/// envelope and `query_box` is the `gap` of that envelope.
pub open spec fn gauged<E, B: Fn(&E, &E) -> u64>(b: B, query_box: &E, gap: spec_fn(E) -> u64) -> bool {
    forall|envelope: E, d: u64| #[trigger] b.ensures((&envelope, query_box), d) ==> d == gap(envelope)
}

/// `cost` is what `f` returns for `query`: whatever `f` returns for the
/// item of a leaf is the `cost` of that leaf.
pub open spec fn scored_by<T, E, F: Fn(&T, &T) -> u64>(
    f: F,
    query: &T,
    cost: spec_fn(RTreeNode<T, E>) -> u64,
) -> bool {
    forall|item: T, envelope: E, d: u64| #[trigger]
        f.ensures((query, &item), d) ==> d == #[trigger] cost(RTreeNode::Leaf { item, envelope })
}

/// `halt` is what `p` returns: whatever `p` returns for a candidate and a
/// bound is the answer of `halt` to them.
pub open spec fn halted<E, P: Fn(KObj<E>, u64) -> bool>(
    p: P,
    halt: spec_fn(KObj<E>, u64) -> bool,
) -> bool {
    forall|o: KObj<E>, mindist: u64, stop: bool| #[trigger]
        p.ensures((o, mindist), stop) ==> stop == halt(o, mindist)
}

/// The entry `e` agrees with the table of a walk: where it stands for an
/// internal node, its candidate points at the children of that node.
pub open spec fn tabled_parent<'a, T, E>(
    e: Pending<T, E>,
    parents: Seq<&'a Vec<RTreeNode<T, E>>>,
) -> bool {
    match e.node {
        RTreeNode::Leaf { .. } => e.cand.is_item,
        RTreeNode::Parent { children, .. } => !e.cand.is_item && e.cand.node < parents.len()
            && *parents[e.cand.node as int] == children,
    }
}

/// The queue and the table of a walk are those of the frontier `fr`.
pub open spec fn linked_parents<'a, T, E>(
    fr: Frontier<T, E>,
    queue: Seq<KObj<E>>,
    parents: Seq<&'a Vec<RTreeNode<T, E>>>,
) -> bool {
    &&& queue == cands(fr.queue)
    &&& fr.parents == parents.len()
    &&& forall|i: int| 0 <= i < fr.queue.len() ==> tabled_parent(#[trigger] fr.queue[i], parents)
}

/// The function that gives every envelope the distance `d`.
pub open spec fn level<E>(d: u64) -> spec_fn(E) -> u64 {
    |envelope: E| d
}

/// The function that gives every node the distance `d`.
pub open spec fn even<T, E>(d: u64) -> spec_fn(RTreeNode<T, E>) -> u64 {
    |n: RTreeNode<T, E>| d
}

/// A search of `root` that started with the bound `mindist` and has come
/// to the state `at`.
pub struct BoundedCourse<T, E> {
    pub root: Seq<RTreeNode<T, E>>,
    pub mindist: u64,
    pub at: Bounded<T, E>,
}

impl<T, E> BoundedCourse<T, E> {
    /// The walk goes on from the state: whatever distances `b` and `f` and
    /// answers `p` give, it ends with what the whole search ends with.
    pub open spec fn serving<B: Fn(&E, &E) -> u64, F: Fn(&T, &T) -> u64, P: Fn(KObj<E>, u64) -> bool>(
        self,
        query: &T,
        query_box: &E,
        b: B,
        f: F,
        p: P,
    ) -> bool {
        forall|
            gap: spec_fn(E) -> u64,
            cost: spec_fn(RTreeNode<T, E>) -> u64,
            halt: spec_fn(KObj<E>, u64) -> bool,
        |
            gauged(b, query_box, gap) && scored_by(f, query, cost) && halted(p, halt)
                ==> #[trigger] min_dist_of(self.root, self.mindist, gap, cost, halt)
                == walk_bounded(self.at, gap, cost, halt)
    }

    /// The walk goes on from the state once it has met `children`.
    pub open spec fn opening<B: Fn(&E, &E) -> u64, F: Fn(&T, &T) -> u64, P: Fn(KObj<E>, u64) -> bool>(
        self,
        query: &T,
        query_box: &E,
        b: B,
        f: F,
        p: P,
        children: Seq<RTreeNode<T, E>>,
    ) -> bool {
        forall|
            gap: spec_fn(E) -> u64,
            cost: spec_fn(RTreeNode<T, E>) -> u64,
            halt: spec_fn(KObj<E>, u64) -> bool,
        |
            gauged(b, query_box, gap) && scored_by(f, query, cost) && halted(p, halt)
                ==> #[trigger] min_dist_of(self.root, self.mindist, gap, cost, halt)
                == walk_bounded(
                expand_bounded(self.at, children, children.len(), gap, cost),
                gap,
                cost,
                halt,
            )
    }

    /// The state is what `before` becomes when the walk meets the first `k`
    /// of `children`, whatever distances `b` and `f` give.
    pub open spec fn met<B: Fn(&E, &E) -> u64, F: Fn(&T, &T) -> u64>(
        self,
        query: &T,
        query_box: &E,
        b: B,
        f: F,
        before: Bounded<T, E>,
        children: Seq<RTreeNode<T, E>>,
        k: nat,
    ) -> bool {
        forall|gap: spec_fn(E) -> u64, cost: spec_fn(RTreeNode<T, E>) -> u64|
            gauged(b, query_box, gap) && scored_by(f, query, cost) ==> self.at
                == #[trigger] expand_bounded(before, children, k, gap, cost)
    }

    /// The search is over: it ends with `least`.
    pub open spec fn over<B: Fn(&E, &E) -> u64, F: Fn(&T, &T) -> u64, P: Fn(KObj<E>, u64) -> bool>(
        self,
        query: &T,
        query_box: &E,
        b: B,
        f: F,
        p: P,
        least: u64,
    ) -> bool {
        forall|
            gap: spec_fn(E) -> u64,
            cost: spec_fn(RTreeNode<T, E>) -> u64,
            halt: spec_fn(KObj<E>, u64) -> bool,
        |
            gauged(b, query_box, gap) && scored_by(f, query, cost) && halted(p, halt)
                ==> #[trigger] min_dist_of(self.root, self.mindist, gap, cost, halt) == least
    }

    /// The course after the walk has met `child`, for whose envelope `b`
    /// returned `g` and, where it is an item that was scored, `f` returned `d`.
    pub open spec fn meeting(self, child: RTreeNode<T, E>, g: u64, d: u64) -> Self {
        BoundedCourse { at: meet_bounded(self.at, child, level(g), even(d)), ..self }
    }

    /// The course after the nearest candidate has left the queue.
    pub open spec fn leaving(self) -> Self {
        BoundedCourse { at: self.at.rest(), ..self }
    }

    /// A search starts by opening the root.
    pub proof fn lemma_start<B: Fn(&E, &E) -> u64, F: Fn(&T, &T) -> u64, P: Fn(KObj<E>, u64) -> bool>(
        root: Seq<RTreeNode<T, E>>,
        mindist: u64,
        query: &T,
        query_box: &E,
        b: B,
        f: F,
        p: P,
    )
        ensures
            (BoundedCourse { root, mindist, at: Bounded { fr: start(), mindist } }).opening(
                query,
                query_box,
                b,
                f,
                p,
                root,
            ),
    {
    }

    /// Meeting one more child, for whose envelope `b` returned `g`; where
    /// that is below the bound and the child is an item, `f` returned `d`
    /// for it.
    pub proof fn lemma_meet<B: Fn(&E, &E) -> u64, F: Fn(&T, &T) -> u64>(
        self,
        query: &T,
        query_box: &E,
        b: B,
        f: F,
        before: Bounded<T, E>,
        children: Seq<RTreeNode<T, E>>,
        k: nat,
        g: u64,
        d: u64,
    )
        requires
            k < children.len(),
            self.met(query, query_box, b, f, before, children, k),
            b.ensures((&children[k as int].env(), query_box), g),
            g < self.at.mindist && children[k as int] is Leaf ==> f.ensures(
                (query, &children[k as int]->item),
                d,
            ),
        ensures
            self.meeting(children[k as int], g, d).met(query, query_box, b, f, before, children, k + 1),
            measure(self.meeting(children[k as int], g, d).at.fr.queue) <= measure(
                self.at.fr.queue,
            ) + children[k as int].weight(),
    {
        let child = children[k as int];
        let next = self.meeting(child, g, d);
        lemma_measure_enqueue(self.at.fr.queue, ranked_entry(self.at.fr, child, level(g), even(d)));
        assert forall|gap: spec_fn(E) -> u64, cost: spec_fn(RTreeNode<T, E>) -> u64|
            gauged(b, query_box, gap) && scored_by(f, query, cost) implies next.at
            == #[trigger] expand_bounded(before, children, k + 1, gap, cost) by {
            assert(self.at == expand_bounded(before, children, k, gap, cost));
            assert(gap(child.env()) == g);
            if g < self.at.mindist {
                if child is Leaf {
                    assert(child == RTreeNode::<T, E>::Leaf {
                        item: child->item,
                        envelope: child.env(),
                    });
                    assert(cost(child) == d);
                }
                assert(ranked_entry(self.at.fr, child, gap, cost) == ranked_entry(
                    self.at.fr,
                    child,
                    level(g),
                    even(d),
                ));
            }
            assert(next.at == meet_bounded(self.at, child, gap, cost));
        }
    }

    /// Once all children are met the walk goes on from the state.
    pub proof fn lemma_opened<B: Fn(&E, &E) -> u64, F: Fn(&T, &T) -> u64, P: Fn(KObj<E>, u64) -> bool>(
        self,
        query: &T,
        query_box: &E,
        b: B,
        f: F,
        p: P,
        before: Bounded<T, E>,
        children: Seq<RTreeNode<T, E>>,
    )
        requires
            (BoundedCourse { at: before, ..self }).opening(query, query_box, b, f, p, children),
            self.met(query, query_box, b, f, before, children, children.len()),
        ensures
            self.serving(query, query_box, b, f, p),
    {
        assert forall|
            gap: spec_fn(E) -> u64,
            cost: spec_fn(RTreeNode<T, E>) -> u64,
            halt: spec_fn(KObj<E>, u64) -> bool,
        |
            gauged(b, query_box, gap) && scored_by(f, query, cost) && halted(
                p,
                halt,
            ) implies #[trigger] min_dist_of(self.root, self.mindist, gap, cost, halt)
            == walk_bounded(self.at, gap, cost, halt) by {
            let opened = BoundedCourse { at: before, ..self };
            assert(min_dist_of(opened.root, opened.mindist, gap, cost, halt) == walk_bounded(
                expand_bounded(before, children, children.len(), gap, cost),
                gap,
                cost,
                halt,
            ));
            assert(self.at == expand_bounded(before, children, children.len(), gap, cost));
        }
    }

    /// Serving an item, after which `p` answered `stop`: the search is over
    /// where it stops, and goes on otherwise.
    pub proof fn lemma_judge<B: Fn(&E, &E) -> u64, F: Fn(&T, &T) -> u64, P: Fn(KObj<E>, u64) -> bool>(
        self,
        query: &T,
        query_box: &E,
        b: B,
        f: F,
        p: P,
        stop: bool,
    )
        requires
            self.serving(query, query_box, b, f, p),
            self.at.fr.queue.len() > 0,
            self.at.fr.queue.last().node is Leaf,
            p.ensures((self.at.fr.queue.last().cand, self.at.mindist), stop),
        ensures
            stop ==> self.over(query, query_box, b, f, p, self.at.mindist),
            !stop ==> self.leaving().serving(query, query_box, b, f, p),
            measure(self.leaving().at.fr.queue) < measure(self.at.fr.queue),
    {
        lemma_weight_positive(self.at.fr.queue.last().node);
        assert forall|
            gap: spec_fn(E) -> u64,
            cost: spec_fn(RTreeNode<T, E>) -> u64,
            halt: spec_fn(KObj<E>, u64) -> bool,
        |
            gauged(b, query_box, gap) && scored_by(f, query, cost) && halted(
                p,
                halt,
            ) implies #[trigger] min_dist_of(self.root, self.mindist, gap, cost, halt) == (
        if stop {
            self.at.mindist
        } else {
            walk_bounded(self.at.rest(), gap, cost, halt)
        }) by {
            assert(halt(self.at.fr.queue.last().cand, self.at.mindist) == stop);
            assert(min_dist_of(self.root, self.mindist, gap, cost, halt) == walk_bounded(
                self.at,
                gap,
                cost,
                halt,
            ));
        }
    }

    /// Serving an internal node opens it.
    pub proof fn lemma_open<B: Fn(&E, &E) -> u64, F: Fn(&T, &T) -> u64, P: Fn(KObj<E>, u64) -> bool>(
        self,
        query: &T,
        query_box: &E,
        b: B,
        f: F,
        p: P,
    )
        requires
            self.serving(query, query_box, b, f, p),
            self.at.fr.queue.len() > 0,
            self.at.fr.queue.last().node is Parent,
        ensures
            self.leaving().opening(
                query,
                query_box,
                b,
                f,
                p,
                self.at.fr.queue.last().node->children@,
            ),
            measure(self.leaving().at.fr.queue) + self.at.fr.queue.last().node.weight()
                == measure(self.at.fr.queue),
            self.at.fr.queue.last().node.weight() == 1 + forest_weight(
                self.at.fr.queue.last().node->children@,
                self.at.fr.queue.last().node->children@.len(),
            ),
    {
        let children = self.at.fr.queue.last().node->children@;
        assert forall|
            gap: spec_fn(E) -> u64,
            cost: spec_fn(RTreeNode<T, E>) -> u64,
            halt: spec_fn(KObj<E>, u64) -> bool,
        |
            gauged(b, query_box, gap) && scored_by(f, query, cost) && halted(
                p,
                halt,
            ) implies #[trigger] min_dist_of(self.root, self.mindist, gap, cost, halt)
            == walk_bounded(
            expand_bounded(self.at.rest(), children, children.len(), gap, cost),
            gap,
            cost,
            halt,
        ) by {
            assert(min_dist_of(self.root, self.mindist, gap, cost, halt) == walk_bounded(
                self.at,
                gap,
                cost,
                halt,
            ));
        }
    }

    /// With nothing left to serve the search is over.
    pub proof fn lemma_end<B: Fn(&E, &E) -> u64, F: Fn(&T, &T) -> u64, P: Fn(KObj<E>, u64) -> bool>(
        self,
        query: &T,
        query_box: &E,
        b: B,
        f: F,
        p: P,
    )
        requires
            self.serving(query, query_box, b, f, p),
            self.at.fr.queue.len() == 0,
        ensures
            self.over(query, query_box, b, f, p, self.at.mindist),
    {
        assert forall|
            gap: spec_fn(E) -> u64,
            cost: spec_fn(RTreeNode<T, E>) -> u64,
            halt: spec_fn(KObj<E>, u64) -> bool,
        |
            gauged(b, query_box, gap) && scored_by(f, query, cost) && halted(
                p,
                halt,
            ) implies #[trigger] min_dist_of(self.root, self.mindist, gap, cost, halt)
            == self.at.mindist by {
            assert(min_dist_of(self.root, self.mindist, gap, cost, halt) == walk_bounded(
                self.at,
                gap,
                cost,
                halt,
            ));
        }
    }
}

/// The table of a walk still agrees with its frontier after the candidate
/// `o` of `child` went into the queue; where `child` is an internal node,
/// the table got one entry more, which `o` points at.
proof fn lemma_meet_linked_parents<'a, T, E>(
    fr: Frontier<T, E>,
    child: RTreeNode<T, E>,
    g: u64,
    o: KObj<E>,
    queue: Seq<KObj<E>>,
    parents: Seq<&'a Vec<RTreeNode<T, E>>>,
    grown_parents: Seq<&'a Vec<RTreeNode<T, E>>>,
)
    requires
        linked_parents(fr, queue, parents),
        o.is_item == (child is Leaf),
        o.mbr == child.env(),
        child is Leaf ==> o.node == usize::MAX && grown_parents == parents,
        child is Parent ==> o.distance == g && o.node == parents.len() && grown_parents.len()
            == parents.len() + 1,
        child is Parent ==> *grown_parents[parents.len() as int] == child->children,
        child is Parent ==> forall|j: int|
            0 <= j < parents.len() ==> grown_parents[j] == parents[j],
    ensures
        o == ranked_entry(fr, child, level(g), even(o.distance)).cand,
        linked_parents(
            Frontier {
                queue: enqueue(
                    fr.queue,
                    ranked_entry(fr, child, level(g), even(o.distance)),
                ),
                parents: grown_parents.len(),
                leaves: fr.leaves,
            },
            queue.insert(slot(queue, o.distance) as int, o),
            grown_parents,
        ),
{
    let entry = ranked_entry(fr, child, level(g), even(o.distance));
    let grown = enqueue(fr.queue, entry);
    assert(entry.cand == o);
    lemma_cands_enqueue(fr.queue, entry);
    lemma_enqueue_entries(fr.queue, entry);
    assert forall|j: int| 0 <= j < grown.len() implies tabled_parent(
        #[trigger] grown[j],
        grown_parents,
    ) by {
        if grown[j] != entry {
            let k = choose|k: int| 0 <= k < fr.queue.len() && fr.queue[k] == grown[j];
            assert(tabled_parent(fr.queue[k], parents));
        }
    }
}

impl<T, E: Copy> RTree<T, E> {
    /// What `knn_min_dist` returns: `None` for a tree without items; else,
    /// whatever distances `gap` and `cost` the functions `b` and `f` give
    /// and whatever answers `halt` the predicate `p` gives, `min_dist_of`
    /// for them.
    pub open spec fn knn_min_dist_returns<B, F, P>(
        &self,
        query: &T,
        query_box: &E,
        b: B,
        f: F,
        p: P,
        mindist: u64,
        result: Option<u64>,
    ) -> bool where B: Fn(&E, &E) -> u64, F: Fn(&T, &T) -> u64, P: Fn(KObj<E>, u64) -> bool {
        &&& result is None <==> self.spec_size() == 0
        &&& forall|
            gap: spec_fn(E) -> u64,
            cost: spec_fn(RTreeNode<T, E>) -> u64,
            halt: spec_fn(KObj<E>, u64) -> bool,
        |
            gauged(b, query_box, gap) && scored_by(f, query, cost) && halted(p, halt)
                && self.spec_size() != 0 ==> result == Some(
                #[trigger] min_dist_of(self.root@, mindist, gap, cost, halt),
            )
    }

    /// Finds the least distance from `query` to an item, starting from the
    /// bound `mindist`; `None` where the tree holds no item.
    ///
    /// `fn_box_dist` gives the distance between the envelope of a node and
    /// `query_box`, the envelope of the query. A node whose envelope is not
    /// nearer than the least distance known is passed over with all that
    /// lies below it. An item that is met is scored by `fn_dist_score`, and
    /// lowers the least distance if it is nearer. After each item that the
    /// walk serves, `fn_predicate` is shown its candidate and the least
    /// distance known and says whether the search stops. An internal node
    /// waits with the distance of its envelope, an item with its score.
    pub fn knn_min_dist<'a, B, F, P>(
        &'a self,
        query: &T,
        query_box: &E,
        fn_box_dist: B,
        fn_dist_score: F,
        fn_predicate: P,
        mindist: u64,
    ) -> (result: Option<u64>) where
        B: Fn(&E, &E) -> u64,
        F: Fn(&T, &T) -> u64,
        P: Fn(KObj<E>, u64) -> bool,

        requires
            forall|envelope: &E| fn_box_dist.requires((envelope, query_box)),
            forall|item: &T| fn_dist_score.requires((query, item)),
            forall|o: KObj<E>, least: u64| fn_predicate.requires((o, least)),
        ensures
            self.knn_min_dist_returns(
                query,
                query_box,
                fn_box_dist,
                fn_dist_score,
                fn_predicate,
                mindist,
                result,
            ),
            result is None <==> self.spec_size() == 0,
    {
        if self.is_empty() {
            return None;
        }
        let mut best: u64 = mindist;
        let mut parents: Vec<&'a Vec<RTreeNode<T, E>>> = Vec::new();
        parents.push(&self.root);
        let mut queue: MinQueue<E> = MinQueue::new();
        let mut current: &'a Vec<RTreeNode<T, E>> = &self.root;
        let ghost mut course = BoundedCourse {
            root: self.root@,
            mindist,
            at: Bounded { fr: start(), mindist },
        };
        proof {
            assert(queue@ =~= cands(course.at.fr.queue));
            BoundedCourse::lemma_start(
                self.root@,
                mindist,
                query,
                query_box,
                fn_box_dist,
                fn_dist_score,
                fn_predicate,
            );
        }
        loop
            invariant
                forall|envelope: &E| fn_box_dist.requires((envelope, query_box)),
                forall|item: &T| fn_dist_score.requires((query, item)),
                forall|o: KObj<E>, least: u64| fn_predicate.requires((o, least)),
                self.spec_size() != 0,
                course.root == self.root@,
                course.mindist == mindist,
                course.at.mindist == best,
                queue.wf(),
                linked_parents(course.at.fr, queue@, parents@),
                course.opening(
                    query,
                    query_box,
                    fn_box_dist,
                    fn_dist_score,
                    fn_predicate,
                    current@,
                ),
            decreases measure(course.at.fr.queue) + forest_weight(current@, current@.len()),
        {
            // Meet the children of the current node.
            let ghost before = course.at;
            let mut i: usize = 0;
            proof {
                assert(course.met(query, query_box, fn_box_dist, fn_dist_score, before, current@, 0));
            }
            while i < current.len()
                invariant
                    forall|envelope: &E| fn_box_dist.requires((envelope, query_box)),
                    forall|item: &T| fn_dist_score.requires((query, item)),
                    i <= current.len(),
                    course.root == self.root@,
                    course.mindist == mindist,
                    course.at.mindist == best,
                    queue.wf(),
                    linked_parents(course.at.fr, queue@, parents@),
                    (BoundedCourse { at: before, ..course }).opening(
                        query,
                        query_box,
                        fn_box_dist,
                        fn_dist_score,
                        fn_predicate,
                        current@,
                    ),
                    course.met(
                        query,
                        query_box,
                        fn_box_dist,
                        fn_dist_score,
                        before,
                        current@,
                        i as nat,
                    ),
                    measure(course.at.fr.queue) <= measure(before.fr.queue) + forest_weight(
                        current@,
                        i as nat,
                    ),
                decreases current.len() - i,
            {
                let ghost child = current@[i as int];
                let ghost was = (queue@, parents@);
                let ghost mut score: u64 = 0;
                let box_dist = match &current[i] {
                    RTreeNode::Leaf { item, envelope } => {
                        let box_dist = fn_box_dist(envelope, query_box);
                        if box_dist < best {
                            let mut o = KObj {
                                distance: 0,
                                is_item: true,
                                mbr: *envelope,
                                node: usize::MAX,
                            };
                            o.distance = fn_dist_score(query, item);
                            if o.distance < best {
                                best = o.distance;
                            }
                            queue.push(o);
                            proof {
                                score = o.distance;
                                lemma_meet_linked_parents(
                                    course.at.fr,
                                    child,
                                    box_dist,
                                    o,
                                    was.0,
                                    was.1,
                                    parents@,
                                );
                            }
                        }
                        box_dist
                    },
                    RTreeNode::Parent { envelope, children } => {
                        let box_dist = fn_box_dist(envelope, query_box);
                        if box_dist < best {
                            let mut o = KObj {
                                distance: box_dist,
                                is_item: false,
                                mbr: *envelope,
                                node: usize::MAX,
                            };
                            o.node = parents.len();
                            parents.push(children);
                            queue.push(o);
                            proof {
                                lemma_meet_linked_parents(
                                    course.at.fr,
                                    child,
                                    box_dist,
                                    o,
                                    was.0,
                                    was.1,
                                    parents@,
                                );
                            }
                        }
                        box_dist
                    },
                };
                proof {
                    course.lemma_meet(
                        query,
                        query_box,
                        fn_box_dist,
                        fn_dist_score,
                        before,
                        current@,
                        i as nat,
                        box_dist,
                        score,
                    );
                    course = course.meeting(child, box_dist, score);
                }
                i = i + 1;
            }
            proof {
                course.lemma_opened(
                    query,
                    query_box,
                    fn_box_dist,
                    fn_dist_score,
                    fn_predicate,
                    before,
                    current@,
                );
            }
            // Serve the items that are nearer than every internal node.
            while !queue.is_empty() && queue.peek().unwrap().is_item
                invariant
                    forall|o: KObj<E>, least: u64| fn_predicate.requires((o, least)),
                    self.spec_size() != 0,
                    course.root == self.root@,
                    course.mindist == mindist,
                    course.at.mindist == best,
                    queue.wf(),
                    linked_parents(course.at.fr, queue@, parents@),
                    course.serving(query, query_box, fn_box_dist, fn_dist_score, fn_predicate),
                    measure(course.at.fr.queue) <= measure(before.fr.queue) + forest_weight(
                        current@,
                        current@.len(),
                    ),
                decreases queue@.len(),
            {
                let candidate = queue.pop().unwrap();
                let stop = fn_predicate(candidate, best);
                proof {
                    assert(tabled_parent(course.at.fr.queue.last(), parents@));
                    course.lemma_judge(
                        query,
                        query_box,
                        fn_box_dist,
                        fn_dist_score,
                        fn_predicate,
                        stop,
                    );
                    assert(queue@ =~= cands(course.at.fr.rest().queue));
                    course = course.leaving();
                }
                if stop {
                    return Some(best);
                }
            }
            // Go on with the nearest internal node, if one is left.
            match queue.pop() {
                None => {
                    proof {
                        course.lemma_end(
                            query,
                            query_box,
                            fn_box_dist,
                            fn_dist_score,
                            fn_predicate,
                        );
                    }
                    return Some(best);
                },
                Some(next) => {
                    proof {
                        assert(tabled_parent(course.at.fr.queue.last(), parents@));
                        course.lemma_open(
                            query,
                            query_box,
                            fn_box_dist,
                            fn_dist_score,
                            fn_predicate,
                        );
                        assert(queue@ =~= cands(course.at.fr.rest().queue));
                        course = course.leaving();
                    }
                    current = parents[next.node];
                },
            }
        }
    }
}

} // verus!
