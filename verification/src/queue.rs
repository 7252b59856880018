//! A priority queue of candidates that serves the nearest one first.
//!
//! The queue keeps its candidates in a vector in the order of their
//! comparison, from the farthest to the nearest, so that the nearest is the
//! last one and leaves in constant time. Among candidates of equal distance
//! the one that came first leaves first.

use vstd::prelude::*;
use crate::kobj::KObj;

verus! {

/// `q` lists its candidates from the farthest to the nearest.
pub open spec fn descending<E>(q: Seq<KObj<E>>) -> bool {
    forall|i: int, j: int| 0 <= i <= j < q.len() ==> q[i].distance >= q[j].distance
}

/// The place at which a candidate of distance `d` enters `q`: behind the last
/// candidate that is farther than `d`, and so in front of every one that is
/// as near or nearer.
pub open spec fn slot<E>(q: Seq<KObj<E>>, d: u64) -> nat
    decreases q.len(),
{
    if q.len() == 0 || q.last().distance > d {
        q.len()
    } else {
        slot(q.drop_last(), d)
    }
}

/// What `slot` promises: it lies within `q`, the candidate in front of it is
/// farther than `d`, and none from it on is.
pub proof fn lemma_slot_bounds<E>(q: Seq<KObj<E>>, d: u64)
    ensures
        slot(q, d) <= q.len(),
        slot(q, d) > 0 ==> q[slot(q, d) - 1].distance > d,
        forall|i: int| slot(q, d) <= i < q.len() ==> q[i].distance <= d,
    decreases q.len(),
{
    if q.len() == 0 || q.last().distance > d {
    } else {
        let front = q.drop_last();
        lemma_slot_bounds(front, d);
        assert forall|i: int| slot(q, d) <= i < q.len() implies q[i].distance <= d by {
            if i < front.len() {
                assert(front[i] == q[i]);
            }
        }
    }
}

/// A place with the two properties of `slot` is `slot`.
pub proof fn lemma_slot_unique<E>(q: Seq<KObj<E>>, d: u64, k: int)
    requires
        0 <= k <= q.len(),
        k > 0 ==> q[k - 1].distance > d,
        forall|i: int| k <= i < q.len() ==> q[i].distance <= d,
    ensures
        slot(q, d) == k,
    decreases q.len(),
{
    if q.len() == 0 || q.last().distance > d {
    } else {
        lemma_slot_unique(q.drop_last(), d, k);
    }
}

/// A candidate that enters an ordered queue at its slot leaves it ordered.
pub proof fn lemma_insert_keeps_order<E>(q: Seq<KObj<E>>, o: KObj<E>)
    requires
        descending(q),
    ensures
        descending(q.insert(slot(q, o.distance) as int, o)),
{
    lemma_slot_bounds(q, o.distance);
    let k = slot(q, o.distance) as int;
    let r = q.insert(k, o);
    assert forall|i: int, j: int| 0 <= i <= j < r.len() implies r[i].distance >= r[j].distance by {
        if i < k && j > k {
            assert(q[i].distance >= q[k - 1].distance);
        } else if i < k && j == k {
            assert(q[i].distance >= q[k - 1].distance);
        }
    }
}

/// A min-priority queue of candidates.
pub struct MinQueue<E> {
    items: Vec<KObj<E>>,
}

impl<E> View for MinQueue<E> {
    type V = Seq<KObj<E>>;

    /// The candidates from the farthest to the nearest; the last is served next.
    closed spec fn view(&self) -> Seq<KObj<E>> {
        self.items@
    }
}

impl<E: Copy> MinQueue<E> {
    /// The queue is in order: every operation keeps it so.
    pub open spec fn wf(&self) -> bool {
        descending(self@)
    }

    /// An empty queue.
    pub fn new() -> (q: Self)
        ensures
            q.wf(),
            q@ == Seq::<KObj<E>>::empty(),
    {
        MinQueue { items: Vec::new() }
    }

    /// The number of candidates that wait.
    pub fn len(&self) -> (n: usize)
        ensures
            n == self@.len(),
    {
        self.items.len()
    }

    /// Whether no candidate waits.
    pub fn is_empty(&self) -> (b: bool)
        ensures
            b == (self@.len() == 0),
    {
        self.items.len() == 0
    }

    /// Adds `o` at its slot.
    pub fn push(&mut self, o: KObj<E>)
        requires
            old(self).wf(),
        ensures
            final(self).wf(),
            final(self)@ == old(self)@.insert(slot(old(self)@, o.distance) as int, o),
    {
        let mut lo: usize = 0;
        let mut hi: usize = self.items.len();
        while lo < hi
            invariant
                lo <= hi <= self.items.len(),
                descending(self.items@),
                forall|i: int| 0 <= i < lo ==> self.items@[i].distance > o.distance,
                forall|i: int| hi <= i < self.items.len() ==> self.items@[i].distance <= o.distance,
            decreases hi - lo,
        {
            let mid: usize = lo + (hi - lo) / 2;
            if self.items[mid] < o {
                lo = mid + 1;
            } else {
                hi = mid;
            }
        }
        proof {
            lemma_slot_unique(self.items@, o.distance, lo as int);
            lemma_insert_keeps_order(self.items@, o);
        }
        self.items.insert(lo, o);
    }

    /// The nearest candidate, if any, which stays in the queue.
    pub fn peek(&self) -> (r: Option<KObj<E>>)
        ensures
            self@.len() == 0 ==> r.is_none(),
            self@.len() > 0 ==> r == Some(self@.last()),
    {
        let n: usize = self.items.len();
        if n == 0 {
            None
        } else {
            Some(self.items[n - 1])
        }
    }

    /// Takes the nearest candidate out of the queue, if there is one: no
    /// candidate that stays is nearer.
    pub fn pop(&mut self) -> (r: Option<KObj<E>>)
        requires
            old(self).wf(),
        ensures
            final(self).wf(),
            old(self)@.len() == 0 ==> r.is_none() && final(self)@ == old(self)@,
            old(self)@.len() > 0 ==> r == Some(old(self)@.last()) && final(self)@ == old(
                self,
            )@.drop_last(),
            forall|i: int|
                0 <= i < old(self)@.len() ==> old(self)@.last().distance <= old(self)@[i].distance,
    {
        self.items.pop()
    }
}

} // verus!
