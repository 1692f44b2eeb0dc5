//! A k-d tree that answers k-nearest-neighbour queries, with every function
//! proved against its contract.
//!
//! Positions lie on an integer grid: coordinates are `i32` and distances are
//! `u128`, so that the squared Euclidean distance is exact and cannot
//! overflow. A tree is built once, by [`KDTree::from_vec`], and searched any
//! number of times, by [`KDTree::get_nearest_neighbors`].
//!
//! - [`point`]: positions and records;
//! - [`distance`]: distance metrics;
//! - [`heap`]: binary heaps and heap sort on a stretch of a vector;
//! - [`neighbor`]: neighbours, and the bounded collection of the best ones;
//! - [`order`]: how neighbours compare;
//! - [`tree`]: the partition tree and its construction;
//! - [`search`]: the search of a tree;
//! - [`nearest`]: what a search has to return, and what follows from that.
use vstd::prelude::*;

pub mod distance;
pub mod error;
pub mod heap;
pub mod nearest;
pub mod neighbor;
pub mod order;
pub mod point;
pub mod search;
pub mod tree;

pub use crate::distance::{DistanceMetric, SquaredEuclideanDistance};
pub use crate::error::ClosestError;
pub use crate::neighbor::{Neighbor, NeighborHeap, RawNeighbor};
pub use crate::point::{Data, Point};
pub use crate::tree::{KDTree, Node, NodeOrDataPointer};

verus! {

/// The sum of two sizes.
pub fn add(left: usize, right: usize) -> (sum: usize)
    requires
        left + right <= usize::MAX,
    ensures
        sum == left + right,
{
    left + right
}

} // verus!
