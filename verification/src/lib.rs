//! Nearest-neighbour search over a hierarchy of bounding envelopes.
//!
//! A search walks the hierarchy best first: a priority queue holds the
//! candidates that were met and not yet served, and the walk serves the
//! nearest of them until the queue runs dry, the caller's predicate asks to
//! stop, or enough items were found. `RTree::knn` returns the nearest items,
//! `RTree::knn_min_dist` the least distance.
//!
//! Distances are ranking keys of type `u64`: any value that grows with the
//! real distance will do. The envelopes are of a type of the caller's
//! choice; a search hands them on to the caller's functions and never looks
//! into them.
//!
//! What a search returns is stated by a walk over sequences, `walk::knn_hits`
//! and `bounded_walk::min_dist_of`. The modules `nearest_first`,
//! `least_distance`, `coverage`, `limit` and `repeat` prove what follows
//! from that: the order of the items, the least distance that pruning still
//! finds, which items are found, the effect of the limit, and that a search
//! depends on its arguments alone.

pub mod kobj;
pub mod queue;
pub mod tree;
pub mod frontier;
pub mod bounds;
pub mod walk;
pub mod knn;
pub mod bounded_walk;
pub mod min_dist;
pub mod nearest_first;
pub mod least_distance;
pub mod coverage;
pub mod limit;
pub mod repeat;

pub use kobj::KObj;
pub use queue::MinQueue;
pub use tree::{RTree, RTreeNode};
