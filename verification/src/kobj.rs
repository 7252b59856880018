//! The record that the priority queue holds for one pending candidate.
//!
//! Candidates are compared by their distances alone, and in reverse: the
//! greater candidate is the nearer one, so that a queue which serves its
//! greatest element serves the nearest candidate.

use std::cmp::Ordering;
use vstd::prelude::*;
use vstd::std_specs::cmp::{PartialEqSpecImpl, PartialOrdSpecImpl};

verus! {

/// One candidate of a search: a leaf item or an internal node, with the
/// distance by which it is ranked.
#[derive(Debug)]
pub struct KObj<E> {
    /// The ranking key. For an internal node it is a lower bound for
    /// everything inside its envelope.
    pub distance: u64,
    /// `true` for a leaf item, `false` for an internal node.
    pub is_item: bool,
    /// The candidate's envelope.
    pub mbr: E,
    /// The candidate's position in the table of its search: the table of
    /// leaf items where `is_item` holds, that of internal nodes otherwise.
    /// It is `usize::MAX` where the search keeps no table for the candidate.
    pub node: usize,
}

impl<E: Copy> Clone for KObj<E> {
    fn clone(&self) -> (r: Self)
        ensures
            r == *self,
    {
        *self
    }
}

impl<E: Copy> Copy for KObj<E> {

}

impl<E> PartialEq for KObj<E> {
    /// Two candidates are equal where their distances are.
    fn eq(&self, other: &Self) -> (r: bool) {
        self.distance == other.distance
    }
}

impl<E> PartialEqSpecImpl for KObj<E> {
    open spec fn obeys_eq_spec() -> bool {
        true
    }

    open spec fn eq_spec(&self, other: &Self) -> bool {
        self.distance == other.distance
    }
}

impl<E> PartialOrd for KObj<E> {
    /// The order of the distances, reversed: the nearer candidate is the greater.
    fn partial_cmp(&self, other: &Self) -> (r: Option<Ordering>) {
        if other.distance < self.distance {
            Some(Ordering::Less)
        } else if other.distance == self.distance {
            Some(Ordering::Equal)
        } else {
            Some(Ordering::Greater)
        }
    }
}

impl<E> PartialOrdSpecImpl for KObj<E> {
    open spec fn obeys_partial_cmp_spec() -> bool {
        true
    }

    open spec fn partial_cmp_spec(&self, other: &Self) -> Option<Ordering> {
        if other.distance < self.distance {
            Some(Ordering::Less)
        } else if other.distance == self.distance {
            Some(Ordering::Equal)
        } else {
            Some(Ordering::Greater)
        }
    }
}

} // verus!
