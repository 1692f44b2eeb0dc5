//! Neighbours of a query point, and the bounded collection that keeps the
//! best of them during a search.
use vstd::prelude::*;
use vstd::seq_lib::{to_multiset_build, to_multiset_contains};
use crate::heap::{
    below_parent, is_heap, lemma_root_is_max, lemma_swapped_multiset, sift_down, sift_up,
    sort_range, swap_items, Ranked,
};
use crate::point::Data;

verus! {

/// A record found near a query point: its payload and its distance.
#[derive(Debug)]
pub struct Neighbor<T: Clone> {
    pub distance: u128,
    pub data: T,
}

/// A candidate of a search: the slot of a record in the backing storage and
/// the distance of that record from the query point.
#[derive(Debug, Clone, Copy)]
pub struct RawNeighbor {
    pub distance: u128,
    pub data_pointer: usize,
}

impl RawNeighbor {
    /// The candidate for the record at `data_pointer`, at `distance`.
    pub fn new(distance: u128, data_pointer: usize) -> (candidate: Self)
        ensures
            candidate.distance == distance,
            candidate.data_pointer == data_pointer,
    {
        RawNeighbor { distance, data_pointer }
    }

    /// The neighbour that this candidate stands for: its distance, with a
    /// clone of the payload of its record.
    pub fn as_neighbor<T: Clone>(self, data: &[Data<T>]) -> (neighbor: Neighbor<T>)
        requires
            self.data_pointer < data@.len(),
        ensures
            neighbor.distance == self.distance,
            cloned(data@[self.data_pointer as int].data, neighbor.data),
    {
        Neighbor { distance: self.distance, data: data[self.data_pointer].data.clone() }
    }
}

impl Ranked for RawNeighbor {
    /// A candidate is ordered by its distance, whatever `by` is.
    open spec fn rank(&self, by: int) -> int {
        self.distance as int
    }

    open spec fn ranked(&self, by: int) -> bool {
        true
    }

    fn rank_le(&self, other: &Self, by: usize) -> (le: bool) {
        self.distance <= other.distance
    }
}

/// No candidate of `s` is farther away than `distance`.
pub open spec fn within(s: Seq<RawNeighbor>, distance: int) -> bool {
    forall|i: int| 0 <= i < s.len() ==> (#[trigger] s[i]).distance <= distance
}

/// The candidates of `s` come in ascending order of distance.
pub open spec fn by_distance(s: Seq<RawNeighbor>) -> bool {
    forall|i: int, j: int| 0 <= i <= j < s.len() ==> s[i].distance <= s[j].distance
}

/// What offering `candidate` to a collection of up to `limit` candidates
/// does. While there is room the candidate is added, and the outcome is
/// `(true, None)`. When the collection is full, a candidate that is strictly
/// nearer than the worst one takes its place, and the outcome is `true` with
/// the candidate that had to leave; any other candidate is turned away, and
/// the outcome is `(false, None)`.
pub open spec fn offered(
    before: Seq<RawNeighbor>,
    after: Seq<RawNeighbor>,
    limit: nat,
    candidate: RawNeighbor,
    outcome: (bool, Option<RawNeighbor>),
) -> bool {
    if before.len() < limit {
        &&& outcome == (true, None::<RawNeighbor>)
        &&& after.to_multiset() == before.to_multiset().insert(candidate)
    } else {
        match outcome {
            (true, Some(worst)) => {
                &&& before.contains(worst)
                &&& within(before, worst.distance as int)
                &&& candidate.distance < worst.distance
                &&& after.to_multiset().insert(worst) == before.to_multiset().insert(candidate)
            },
            (false, None) => after == before && within(before, candidate.distance as int),
            _ => false,
        }
    }
}

/// The best candidates seen so far: at most `limit` of them, with the worst
/// one at hand.
#[derive(Debug)]
pub struct NeighborHeap {
    pub(crate) items: Vec<RawNeighbor>,
    pub(crate) limit: usize,
}

impl View for NeighborHeap {
    type V = Seq<RawNeighbor>;

    /// The candidates that are kept, in no order that a caller can rely on.
    closed spec fn view(&self) -> Seq<RawNeighbor> {
        self.items@
    }
}

impl NeighborHeap {
    /// The candidates form a max-heap by distance and are at most `limit`.
    pub closed spec fn well_formed(&self) -> bool {
        &&& self.items@.len() <= self.limit
        &&& is_heap(self.items@, 0, self.items@.len() as int, 0)
    }

    /// The number of candidates that may be kept.
    pub closed spec fn capacity(&self) -> nat {
        self.limit as nat
    }

    /// An empty collection that keeps up to `limit` candidates.
    pub fn new(limit: usize) -> (heap: Self)
        ensures
            heap.well_formed(),
            heap@.len() == 0,
            heap.capacity() == limit,
    {
        NeighborHeap { items: Vec::new(), limit }
    }

    /// The number of candidates that are kept.
    pub fn len(&self) -> (count: usize)
        ensures
            count == self@.len(),
    {
        self.items.len()
    }

    /// The number of candidates that may be kept.
    pub fn limit(&self) -> (limit: usize)
        ensures
            limit == self.capacity(),
    {
        self.limit
    }

    /// The worst candidate that is kept, if there is any.
    pub fn peek(&self) -> (worst: Option<RawNeighbor>)
        requires
            self.well_formed(),
        ensures
            match worst {
                Some(w) => self@.contains(w) && within(self@, w.distance as int),
                None => self@.len() == 0,
            },
    {
        if self.items.len() == 0 {
            None
        } else {
            let w = self.items[0];
            proof {
                assert forall|i: int| 0 <= i < self.items@.len() implies (
                #[trigger] self.items@[i]).distance <= w.distance by {
                    lemma_root_is_max(self.items@, 0, self.items@.len() as int, 0, i);
                }
                assert(self.items@[0] == w);
            }
            Some(w)
        }
    }

    /// Adds a candidate to a collection that has room for it.
    pub fn push(&mut self, candidate: RawNeighbor)
        requires
            old(self).well_formed(),
            old(self)@.len() < old(self).capacity(),
        ensures
            final(self).well_formed(),
            final(self).capacity() == old(self).capacity(),
            final(self)@.len() == old(self)@.len() + 1,
            final(self)@.to_multiset() == old(self)@.to_multiset().insert(candidate),
    {
        self.items.push(candidate);
        let count: usize = self.items.len();
        let ghost grown = self.items@;
        proof {
            to_multiset_build(old(self).items@, candidate);
            assert forall|c: int| 0 < c < count - 1 implies #[trigger] below_parent(
                grown,
                0,
                c,
                0,
            ) by {
                assert(below_parent(old(self).items@, 0, c, 0));
            }
        }
        sift_up(&mut self.items, 0, count, 0);
        proof {
            assert(grown.subrange(0, count as int) =~= grown);
            assert(self.items@.subrange(0, count as int) =~= self.items@);
        }
    }

    /// Takes the worst candidate out, if there is any.
    pub fn pop(&mut self) -> (worst: Option<RawNeighbor>)
        requires
            old(self).well_formed(),
        ensures
            final(self).well_formed(),
            final(self).capacity() == old(self).capacity(),
            match worst {
                Some(w) => {
                    &&& final(self)@.len() == old(self)@.len() - 1
                    &&& old(self)@.to_multiset() == final(self)@.to_multiset().insert(w)
                    &&& within(old(self)@, w.distance as int)
                },
                None => old(self)@.len() == 0 && final(self)@ == old(self)@,
            },
    {
        let count: usize = self.items.len();
        if count == 0 {
            return None;
        }
        let ghost before = self.items@;
        swap_items(&mut self.items, 0, count - 1);
        let ghost exchanged = self.items@;
        let taken = self.items.pop();
        let ghost shrunk = self.items@;
        proof {
            lemma_swapped_multiset(before, 0, count - 1);
            assert(exchanged =~= shrunk.push(before[0]));
            to_multiset_build(shrunk, before[0]);
            assert forall|i: int| 0 <= i < before.len() implies (#[trigger] before[i]).distance
                <= before[0].distance by {
                lemma_root_is_max(before, 0, count as int, 0, i);
            }
            assert forall|c: int| 0 < c < count - 1 && (c - 1) / 2 != 0 implies #[trigger] below_parent(
                shrunk,
                0,
                c,
                0,
            ) by {
                assert(below_parent(before, 0, c, 0));
            }
        }
        sift_down(&mut self.items, 0, count - 1, 0);
        proof {
            assert(shrunk.subrange(0, count - 1) =~= shrunk);
            assert(self.items@.subrange(0, count - 1) =~= self.items@);
        }
        taken
    }

    /// Offers a candidate: it is kept if there is room for it, or if it is
    /// strictly nearer than the worst candidate, which then leaves.
    pub fn offer(&mut self, candidate: RawNeighbor) -> (outcome: (bool, Option<RawNeighbor>))
        requires
            old(self).well_formed(),
        ensures
            final(self).well_formed(),
            final(self).capacity() == old(self).capacity(),
            offered(old(self)@, final(self)@, old(self).capacity(), candidate, outcome),
    {
        if self.items.len() < self.limit {
            self.push(candidate);
            return (true, None);
        }
        match self.peek() {
            Some(worst) => {
                if candidate.distance < worst.distance {
                    let taken = self.pop();
                    self.push(candidate);
                    proof {
                        broadcast use vstd::multiset::group_multiset_axioms;

                        let w = taken.unwrap();
                        to_multiset_contains(old(self)@, w);
                        assert(self@.to_multiset().insert(w) =~= old(self)@.to_multiset().insert(
                            candidate,
                        ));
                    }
                    (true, taken)
                } else {
                    (false, None)
                }
            },
            None => (false, None),
        }
    }

    /// The candidates that are kept, nearest first.
    pub fn into_sorted_vec(self) -> (sorted: Vec<RawNeighbor>)
        ensures
            by_distance(sorted@),
            sorted@.to_multiset() == self@.to_multiset(),
    {
        let mut items = self.items;
        let count: usize = items.len();
        sort_range(&mut items, 0, count, 0);
        proof {
            assert(self.items@.subrange(0, count as int) =~= self.items@);
            assert(items@.subrange(0, count as int) =~= items@);
            assert forall|i: int, j: int| 0 <= i <= j < items@.len() implies items@[i].distance
                <= items@[j].distance by {
                assert(items@[i].rank(0) <= items@[j].rank(0));
            }
        }
        items
    }
}

} // verus!
