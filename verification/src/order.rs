//! Neighbours and candidates compare by their distance alone.
use core::cmp::Ordering;
use vstd::prelude::*;
use vstd::std_specs::cmp::{PartialEqSpecImpl, PartialOrdSpecImpl};
use crate::neighbor::{Neighbor, RawNeighbor};

verus! {

/// How two distances compare.
pub open spec fn distance_order(a: u128, b: u128) -> Option<Ordering> {
    if a < b {
        Some(Ordering::Less)
    } else if a == b {
        Some(Ordering::Equal)
    } else {
        Some(Ordering::Greater)
    }
}

/// How two distances compare.
pub fn order_of_distances(a: u128, b: u128) -> (order: Option<Ordering>)
    ensures
        order == distance_order(a, b),
{
    if a < b {
        Some(Ordering::Less)
    } else if a == b {
        Some(Ordering::Equal)
    } else {
        Some(Ordering::Greater)
    }
}

impl PartialEq for RawNeighbor {
    fn eq(&self, other: &Self) -> (equal: bool) {
        self.distance == other.distance
    }
}

impl PartialEqSpecImpl for RawNeighbor {
    open spec fn obeys_eq_spec() -> bool {
        true
    }

    open spec fn eq_spec(&self, other: &Self) -> bool {
        self.distance == other.distance
    }
}

impl PartialOrd for RawNeighbor {
    fn partial_cmp(&self, other: &Self) -> (order: Option<Ordering>) {
        order_of_distances(self.distance, other.distance)
    }
}

impl PartialOrdSpecImpl for RawNeighbor {
    open spec fn obeys_partial_cmp_spec() -> bool {
        true
    }

    open spec fn partial_cmp_spec(&self, other: &Self) -> Option<Ordering> {
        distance_order(self.distance, other.distance)
    }
}

impl<T: Clone> PartialEq for Neighbor<T> {
    fn eq(&self, other: &Self) -> (equal: bool) {
        self.distance == other.distance
    }
}

impl<T: Clone> PartialEqSpecImpl for Neighbor<T> {
    open spec fn obeys_eq_spec() -> bool {
        true
    }

    open spec fn eq_spec(&self, other: &Self) -> bool {
        self.distance == other.distance
    }
}

impl<T: Clone> PartialOrd for Neighbor<T> {
    fn partial_cmp(&self, other: &Self) -> (order: Option<Ordering>) {
        order_of_distances(self.distance, other.distance)
    }
}

impl<T: Clone> PartialOrdSpecImpl for Neighbor<T> {
    open spec fn obeys_partial_cmp_spec() -> bool {
        true
    }

    open spec fn partial_cmp_spec(&self, other: &Self) -> Option<Ordering> {
        distance_order(self.distance, other.distance)
    }
}

} // verus!
