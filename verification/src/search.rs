//! Searching a tree for the records nearest to a point.
use vstd::multiset::Multiset;
use vstd::prelude::*;
use vstd::seq_lib::{
    lemma_multiset_commutative, to_multiset_build, to_multiset_contains, to_multiset_len,
};
use crate::distance::{gap_bounds_distance, prunable, squared_gap, DistanceMetric};
use crate::error::ClosestError;
use crate::nearest::{
    answers, distances_of, drawn_from, lemma_kept_are_nearest, lemma_kept_are_records,
    nearest_first, raw_distances,
};
use crate::heap::{sort_range, Ranked};
use crate::neighbor::{within, Neighbor, NeighborHeap, RawNeighbor};
use crate::point::{positions, Point};
use crate::tree::{KDTree, NodeOrDataPointer};

verus! {

/// The candidate that a search makes of the record at `slot`: that slot, with
/// the distance of the record from `point`.
pub open spec fn candidate<D: DistanceMetric>(
    metric: D,
    point: Seq<i32>,
    points: Seq<Seq<i32>>,
    slot: int,
) -> RawNeighbor {
    RawNeighbor { distance: metric.spec_distance(point, points[slot]), data_pointer: slot as usize }
}

/// The candidates of the records at `lo..hi`, in the order of their slots.
pub open spec fn candidates<D: DistanceMetric>(
    metric: D,
    point: Seq<i32>,
    points: Seq<Seq<i32>>,
    lo: int,
    hi: int,
) -> Seq<RawNeighbor> {
    Seq::new((hi - lo) as nat, |i: int| candidate(metric, point, points, lo + i))
}

/// All candidates that a search has dealt with: those it keeps and those it
/// has passed over.
pub open spec fn tally(kept: Seq<RawNeighbor>, passed: Seq<RawNeighbor>) -> Multiset<RawNeighbor> {
    kept.to_multiset().add(passed.to_multiset())
}

/// `kept` holds the best of the candidates dealt with so far: at most `limit`
/// of them, none passed over while there was room, and, where the search is
/// `sound`, none farther away than one that was passed over.
pub open spec fn kept_best(
    kept: Seq<RawNeighbor>,
    passed: Seq<RawNeighbor>,
    limit: nat,
    sound: bool,
) -> bool {
    &&& kept.len() <= limit
    &&& kept.len() < limit ==> passed.len() == 0
    &&& sound ==> forall|i: int, j: int|
        0 <= i < kept.len() && 0 <= j < passed.len() ==> kept[i].distance <= passed[j].distance
}

/// A sequence without items has the empty multiset of items.
pub proof fn lemma_no_items<A>(s: Seq<A>)
    requires
        s.len() == 0,
    ensures
        s.to_multiset() == Multiset::<A>::empty(),
{
    broadcast use vstd::multiset::group_multiset_axioms;

    to_multiset_len(s);
    vstd::multiset::lemma_multiset_empty_len(s.to_multiset());
    assert(s.to_multiset() =~= Multiset::<A>::empty());
}

/// An item of a sequence whose items all are `x` or items of `b` is `x` or an
/// item of `b`.
pub proof fn lemma_member_after_insert<A>(a: Seq<A>, b: Seq<A>, x: A, i: int)
    requires
        0 <= i < a.len(),
        forall|v: A| a.to_multiset().count(v) <= b.to_multiset().insert(x).count(v),
    ensures
        a[i] == x || b.contains(a[i]),
{
    broadcast use vstd::multiset::group_multiset_axioms;

    assert(a.contains(a[i]));
    to_multiset_contains(a, a[i]);
    to_multiset_contains(b, a[i]);
}

/// The candidates of a stretch are those before a slot, that slot's own, and
/// those after it.
pub proof fn lemma_candidates_split<D: DistanceMetric>(
    metric: D,
    point: Seq<i32>,
    points: Seq<Seq<i32>>,
    lo: int,
    slot: int,
    hi: int,
)
    requires
        lo <= slot < hi,
    ensures
        candidates(metric, point, points, lo, hi).to_multiset() == candidates(
            metric,
            point,
            points,
            lo,
            slot,
        ).to_multiset().insert(candidate(metric, point, points, slot)).add(
            candidates(metric, point, points, slot + 1, hi).to_multiset(),
        ),
{
    let left = candidates(metric, point, points, lo, slot);
    let right = candidates(metric, point, points, slot + 1, hi);
    let own = candidate(metric, point, points, slot);
    assert(candidates(metric, point, points, lo, hi) =~= left.push(own) + right);
    to_multiset_build(left, own);
    lemma_multiset_commutative(left.push(own), right);
}

/// A record beyond a splitting plane is at least as far from a point on the
/// near side as the square of the gap between the point and the plane.
pub proof fn lemma_far_side<D: DistanceMetric>(
    metric: D,
    point: Seq<i32>,
    pivot: Seq<i32>,
    record: Seq<i32>,
    axis: int,
)
    requires
        prunable(metric),
        0 <= axis < point.len(),
        point.len() <= usize::MAX,
        pivot.len() == point.len(),
        record.len() == point.len(),
        point[axis] <= pivot[axis] <= record[axis] || record[axis] <= pivot[axis] <= point[axis],
    ensures
        squared_gap(point[axis] as int, pivot[axis] as int) <= metric.spec_distance(point, record),
{
    assert(gap_bounds_distance(metric, point, record, axis));
    let a: int = point[axis] - pivot[axis];
    let b: int = point[axis] - record[axis];
    assert(0 <= a * a <= b * b) by (nonlinear_arith)
        requires
            (0 <= a <= b) || (b <= a <= 0),
    ;
}

/// Offers `candidate` to the candidates kept so far, and counts whichever
/// candidate is not kept among those passed over. Tells whether the
/// candidate was kept.
pub(crate) fn consider(
    heap: &mut NeighborHeap,
    candidate: RawNeighbor,
    Ghost(passed): Ghost<Seq<RawNeighbor>>,
    Ghost(sound): Ghost<bool>,
) -> (out: (bool, Ghost<Seq<RawNeighbor>>))
    requires
        old(heap).well_formed(),
        kept_best(old(heap)@, passed, old(heap).capacity(), sound),
    ensures
        final(heap).well_formed(),
        final(heap).capacity() == old(heap).capacity(),
        kept_best(final(heap)@, out.1@, old(heap).capacity(), sound),
        tally(final(heap)@, out.1@) == tally(old(heap)@, passed).insert(candidate),
        !out.0 ==> {
            &&& final(heap)@ == old(heap)@
            &&& final(heap)@.len() == old(heap).capacity()
            &&& within(final(heap)@, candidate.distance as int)
        },
{
    let ghost before = heap@;
    let outcome = heap.offer(candidate);
    let ghost after = heap@;
    proof {
        broadcast use vstd::multiset::group_multiset_axioms;

        to_multiset_len(before);
        to_multiset_len(after);
    }
    match outcome {
        (true, None) => {
            proof {
                assert(tally(after, passed) =~= tally(before, passed).insert(candidate));
            }
            (true, Ghost(passed))
        },
        (true, Some(worst)) => {
            let ghost grown = passed.push(worst);
            proof {
                broadcast use vstd::multiset::group_multiset_axioms;

                to_multiset_build(passed, worst);
                assert(after.to_multiset().insert(worst).len() == before.to_multiset().insert(
                    candidate,
                ).len());
                assert(after.len() == before.len());
                assert(tally(after, grown) =~= after.to_multiset().insert(worst).add(
                    passed.to_multiset(),
                ));
                assert(tally(after, grown) =~= tally(before, passed).insert(candidate));
                let w = choose|w: int| 0 <= w < before.len() && before[w] == worst;
                assert forall|i: int, j: int|
                    sound && 0 <= i < after.len() && 0 <= j < grown.len() implies after[i].distance
                    <= grown[j].distance by {
                    assert forall|v: RawNeighbor|
                        after.to_multiset().count(v) <= before.to_multiset().insert(
                            candidate,
                        ).count(v) by {
                        assert(after.to_multiset().insert(worst).count(v)
                            == before.to_multiset().insert(candidate).count(v));
                    }
                    lemma_member_after_insert(after, before, candidate, i);
                    if after[i] != candidate {
                        let m = choose|m: int| 0 <= m < before.len() && before[m] == after[i];
                        assert(before[m].distance <= worst.distance);
                        if j < passed.len() {
                            assert(before[m].distance <= passed[j].distance);
                        }
                    } else {
                        if j < passed.len() {
                            assert(before[w].distance <= passed[j].distance);
                        }
                    }
                }
            }
            (true, Ghost(grown))
        },
        (kept, _) => {
            let ghost grown = passed.push(candidate);
            proof {
                broadcast use vstd::multiset::group_multiset_axioms;

                to_multiset_build(passed, candidate);
                assert(tally(after, grown) =~= tally(before, passed).insert(candidate));
            }
            (kept, Ghost(grown))
        },
    }
}

impl<T: Clone> KDTree<T> {
    /// The candidates of the records at `start..stop`.
    pub(crate) fn bucket_candidates<D: DistanceMetric>(
        &self,
        point: &Point,
        start: usize,
        stop: usize,
        distance_metric: &D,
    ) -> (found: Vec<RawNeighbor>)
        requires
            start <= stop <= self@.len(),
        ensures
            found@ == candidates(*distance_metric, point@, positions(self@), start as int, stop as int),
    {
        let mut found: Vec<RawNeighbor> = Vec::new();
        let mut i: usize = start;
        while i < stop
            invariant
                start <= i <= stop <= self@.len(),
                found@ == candidates(
                    *distance_metric,
                    point@,
                    positions(self@),
                    start as int,
                    i as int,
                ),
            decreases stop - i,
        {
            let distance: u128 = distance_metric.distance(point, self.get_data_point(i));
            found.push(RawNeighbor::new(distance, i));
            i = i + 1;
            assert(found@ =~= candidates(
                *distance_metric,
                point@,
                positions(self@),
                start as int,
                i as int,
            ));
        }
        found
    }

    /// Deals with the records of the bucket `start..stop`. Where the
    /// candidates kept so far leave room for all of them, all are added.
    /// Otherwise they are offered nearest first, until one is turned away:
    /// those after it are no nearer, and are passed over unseen.
    pub(crate) fn scan_bucket<D: DistanceMetric>(
        &self,
        point: &Point,
        k: usize,
        start: usize,
        stop: usize,
        heap: &mut NeighborHeap,
        distance_metric: &D,
        Ghost(passed): Ghost<Seq<RawNeighbor>>,
    ) -> (out: Ghost<Seq<RawNeighbor>>)
        requires
            start < stop <= self@.len(),
            old(heap).well_formed(),
            old(heap).capacity() == k,
            kept_best(old(heap)@, passed, k as nat, prunable(*distance_metric)),
        ensures
            final(heap).well_formed(),
            final(heap).capacity() == k,
            kept_best(final(heap)@, out@, k as nat, prunable(*distance_metric)),
            tally(final(heap)@, out@) == tally(old(heap)@, passed).add(
                candidates(
                    *distance_metric,
                    point@,
                    positions(self@),
                    start as int,
                    stop as int,
                ).to_multiset(),
            ),
    {
        let mut found = self.bucket_candidates(point, start, stop, distance_metric);
        let ghost unsorted = found@;
        let count: usize = found.len();
        let room: usize = k - heap.len();
        if room >= count {
            let mut j: usize = 0;
            proof {
                broadcast use vstd::multiset::group_multiset_axioms;

                lemma_no_items(found@.take(0));
                assert(heap@.to_multiset() =~= old(heap)@.to_multiset().add(
                    found@.take(0).to_multiset(),
                ));
            }
            while j < count
                invariant
                    j <= count,
                    count == found@.len(),
                    heap.well_formed(),
                    heap.capacity() == k,
                    passed.len() == 0,
                    heap@.len() == old(heap)@.len() + j,
                    old(heap)@.len() + count <= k,
                    heap@.to_multiset() == old(heap)@.to_multiset().add(
                        found@.take(j as int).to_multiset(),
                    ),
                decreases count - j,
            {
                heap.push(found[j]);
                proof {
                    broadcast use vstd::multiset::group_multiset_axioms;

                    assert(found@.take(j + 1) =~= found@.take(j as int).push(found@[j as int]));
                    to_multiset_build(found@.take(j as int), found@[j as int]);
                    assert(heap@.to_multiset() =~= old(heap)@.to_multiset().add(
                        found@.take(j + 1).to_multiset(),
                    ));
                }
                j = j + 1;
            }
            proof {
                broadcast use vstd::multiset::group_multiset_axioms;

                assert(found@.take(count as int) =~= found@);
                assert(tally(heap@, passed) =~= tally(old(heap)@, passed).add(
                    found@.to_multiset(),
                ));
            }
            Ghost(passed)
        } else {
            sort_range(&mut found, 0, count, 0);
            let ghost mut rest = passed;
            let mut j: usize = 0;
            let mut going: bool = true;
            proof {
                broadcast use vstd::multiset::group_multiset_axioms;

                assert(unsorted.subrange(0, count as int) =~= unsorted);
                assert(found@.subrange(0, count as int) =~= found@);
                lemma_no_items(found@.take(0));
                assert(tally(heap@, rest) =~= tally(old(heap)@, passed).add(
                    found@.take(0).to_multiset(),
                ));
            }
            while going && j < count
                invariant
                    j <= count,
                    count == found@.len(),
                    heap.well_formed(),
                    heap.capacity() == k,
                    kept_best(heap@, rest, k as nat, prunable(*distance_metric)),
                    tally(heap@, rest) == tally(old(heap)@, passed).add(
                        found@.take(j as int).to_multiset(),
                    ),
                    !going ==> {
                        &&& j > 0
                        &&& heap@.len() == k
                        &&& within(heap@, found@[j - 1].distance as int)
                    },
                decreases count - j,
            {
                let (kept, Ghost(grown)) = consider(
                    heap,
                    found[j],
                    Ghost(rest),
                    Ghost(prunable(*distance_metric)),
                );
                proof {
                    broadcast use vstd::multiset::group_multiset_axioms;

                    rest = grown;
                    assert(found@.take(j + 1) =~= found@.take(j as int).push(found@[j as int]));
                    to_multiset_build(found@.take(j as int), found@[j as int]);
                    assert(tally(heap@, rest) =~= tally(old(heap)@, passed).add(
                        found@.take(j + 1).to_multiset(),
                    ));
                }
                j = j + 1;
                if !kept {
                    going = false;
                }
            }
            let ghost unseen = found@.skip(j as int);
            proof {
                broadcast use vstd::multiset::group_multiset_axioms;

                assert(found@ =~= found@.take(j as int) + unseen);
                lemma_multiset_commutative(found@.take(j as int), unseen);
                lemma_multiset_commutative(rest, unseen);
                assert(found@.to_multiset() == found@.take(j as int).to_multiset().add(
                    unseen.to_multiset(),
                ));
                assert((rest + unseen).to_multiset() == rest.to_multiset().add(
                    unseen.to_multiset(),
                ));
                assert(tally(heap@, rest + unseen) =~= tally(heap@, rest).add(unseen.to_multiset()));
                assert(tally(heap@, rest + unseen) =~= tally(old(heap)@, passed).add(
                    found@.to_multiset(),
                ));
                assert forall|i: int, m: int|
                    prunable(*distance_metric) && 0 <= i < heap@.len() && 0 <= m < (rest
                        + unseen).len() implies heap@[i].distance
                    <= (rest + unseen)[m].distance by {
                    if m >= rest.len() {
                        let at = j + (m - rest.len());
                        assert((rest + unseen)[m] == found@[at]);
                        assert(found@[j - 1].rank(0) <= found@[at].rank(0));
                    }
                }
            }
            Ghost(rest + unseen)
        }
    }
}

impl<T: Clone> KDTree<T> {
    /// Deals with the records of the subtree `node`, which stands for the
    /// slots `lo..hi` and lies at depth `depth`. The pivot of an inner node is
    /// offered first; then the side of the splitting plane on which `point`
    /// lies is searched, and the other side only if a record on it could be
    /// nearer than the worst candidate kept, or if there is room left.
    pub(crate) fn nearest_neighbors<D: DistanceMetric>(
        &self,
        point: &Point,
        k: usize,
        node: &NodeOrDataPointer,
        depth: usize,
        heap: &mut NeighborHeap,
        distance_metric: &D,
        Ghost(lo): Ghost<int>,
        Ghost(hi): Ghost<int>,
        Ghost(passed): Ghost<Seq<RawNeighbor>>,
    ) -> (out: Ghost<Seq<RawNeighbor>>)
        requires
            point@.len() == self.axes(),
            0 <= lo,
            hi <= self@.len(),
            node.covers(lo, hi),
            node.ordered(positions(self@), lo, hi, depth as int, self.axes() as int),
            depth + (hi - lo) <= usize::MAX,
            old(heap).well_formed(),
            old(heap).capacity() == k,
            kept_best(old(heap)@, passed, k as nat, prunable(*distance_metric)),
        ensures
            final(heap).well_formed(),
            final(heap).capacity() == k,
            kept_best(final(heap)@, out@, k as nat, prunable(*distance_metric)),
            tally(final(heap)@, out@) == tally(old(heap)@, passed).add(
                candidates(*distance_metric, point@, positions(self@), lo, hi).to_multiset(),
            ),
        decreases node,
    {
        proof {
            use_type_invariant(self);
        }
        let ghost points = positions(self@);
        match node {
            NodeOrDataPointer::Data((start, stop)) => self.scan_bucket(
                point,
                k,
                *start,
                *stop,
                heap,
                distance_metric,
                Ghost(passed),
            ),
            NodeOrDataPointer::Node(n) => {
                let slot: usize = n.data_pointer;
                let pivot = self.get_data_point(slot);
                let distance: u128 = distance_metric.distance(point, pivot);
                let (_, Ghost(first)) = consider(
                    heap,
                    RawNeighbor::new(distance, slot),
                    Ghost(passed),
                    Ghost(prunable(*distance_metric)),
                );
                let axis: usize = depth % self.dimension;
                let diff: i128 = point.point(axis) as i128 - pivot.point(axis) as i128;
                let left_is_close: bool = diff <= 0;
                let (close, away): (&NodeOrDataPointer, &NodeOrDataPointer) = if left_is_close {
                    (&*n.left, &*n.right)
                } else {
                    (&*n.right, &*n.left)
                };
                let ghost close_lo = if left_is_close { lo } else { slot + 1 };
                let ghost close_hi = if left_is_close { slot as int } else { hi };
                let ghost away_lo = if left_is_close { slot + 1 } else { lo };
                let ghost away_hi = if left_is_close { hi } else { slot as int };
                let Ghost(second) = self.nearest_neighbors(
                    point,
                    k,
                    close,
                    depth + 1,
                    heap,
                    distance_metric,
                    Ghost(close_lo),
                    Ghost(close_hi),
                    Ghost(first),
                );
                let ghost own = candidate(*distance_metric, point@, points, slot as int);
                let ghost near = candidates(*distance_metric, point@, points, close_lo, close_hi);
                let ghost far = candidates(*distance_metric, point@, points, away_lo, away_hi);
                proof {
                    broadcast use vstd::multiset::group_multiset_axioms;

                    lemma_candidates_split(*distance_metric, point@, points, lo, slot as int, hi);
                    assert(tally(old(heap)@, passed).insert(own).add(near.to_multiset()).add(
                        far.to_multiset(),
                    ) =~= tally(old(heap)@, passed).add(
                        candidates(*distance_metric, point@, points, lo, hi).to_multiset(),
                    ));
                }
                let look: bool = if heap.len() < k {
                    true
                } else {
                    match heap.peek() {
                        Some(worst) => {
                            proof {
                                crate::distance::lemma_squared_gap_bound(
                                    point@[axis as int],
                                    pivot@[axis as int],
                                );
                            }
                            ((diff * diff) as u128) < worst.distance
                        },
                        None => false,
                    }
                };
                if look {
                    self.nearest_neighbors(
                        point,
                        k,
                        away,
                        depth + 1,
                        heap,
                        distance_metric,
                        Ghost(away_lo),
                        Ghost(away_hi),
                        Ghost(second),
                    )
                } else {
                    proof {
                        broadcast use vstd::multiset::group_multiset_axioms;

                        lemma_multiset_commutative(second, far);
                        assert(tally(heap@, second + far) =~= tally(heap@, second).add(
                            far.to_multiset(),
                        ));
                        assert forall|i: int, j: int|
                            prunable(*distance_metric) && 0 <= i < heap@.len() && 0 <= j < (second
                                + far).len() implies heap@[i].distance
                            <= (second + far)[j].distance by {
                            if j >= second.len() {
                                let m = away_lo + (j - second.len());
                                assert((second + far)[j] == candidate(
                                    *distance_metric,
                                    point@,
                                    points,
                                    m,
                                ));
                                assert(self@[m].point@.len() == self.axes());
                                assert(self@[slot as int].point@.len() == self.axes());
                                assert(points[m] == self@[m].point@);
                                lemma_far_side(
                                    *distance_metric,
                                    point@,
                                    points[slot as int],
                                    points[m],
                                    axis as int,
                                );
                                crate::distance::lemma_squared_gap_bound(
                                    point@[axis as int],
                                    pivot@[axis as int],
                                );
                            }
                        }
                    }
                    Ghost(second + far)
                }
            },
        }
    }
}

impl<T: Clone> KDTree<T> {
    /// The neighbours that the given candidates stand for, in their order.
    pub(crate) fn as_neighbors(&self, found: &Vec<RawNeighbor>) -> (neighbors: Vec<Neighbor<T>>)
        requires
            forall|j: int| 0 <= j < found@.len() ==> (#[trigger] found@[j]).data_pointer < self@.len(),
        ensures
            neighbors@.len() == found@.len(),
            forall|j: int|
                0 <= j < found@.len() ==> {
                    &&& (#[trigger] neighbors@[j]).distance == found@[j].distance
                    &&& cloned(self@[found@[j].data_pointer as int].data, neighbors@[j].data)
                },
    {
        let mut neighbors: Vec<Neighbor<T>> = Vec::new();
        let mut i: usize = 0;
        while i < found.len()
            invariant
                i <= found@.len(),
                neighbors@.len() == i,
                forall|j: int| 0 <= j < found@.len() ==> (#[trigger] found@[j]).data_pointer < self@.len(),
                forall|j: int|
                    0 <= j < i ==> {
                        &&& (#[trigger] neighbors@[j]).distance == found@[j].distance
                        &&& cloned(self@[found@[j].data_pointer as int].data, neighbors@[j].data)
                    },
            decreases found@.len() - i,
        {
            let neighbor = found[i].as_neighbor(self.data.as_slice());
            neighbors.push(neighbor);
            i = i + 1;
        }
        neighbors
    }
}

impl<T: Clone> KDTree<T> {
    /// Searches for the `k` records nearest to `point`, or for all records if
    /// there are fewer, and returns them nearest first. Under a metric that
    /// is `prunable` they are the nearest records; under any metric they are
    /// as many records as were asked for, each another one. Among records at
    /// the same distance, the ones that the search meets first are kept.
    pub fn get_nearest_neighbors<D: DistanceMetric>(
        &self,
        point: &Point,
        k: usize,
        distance_metric: &D,
    ) -> (found: Result<Vec<Neighbor<T>>, ClosestError>)
        ensures
            match found {
                Ok(neighbors) => {
                    &&& point@.len() == self.axes()
                    &&& answers(neighbors@, self@, *distance_metric, point@, k as nat)
                },
                Err(e) => e == ClosestError::DimensionMismatch && point@.len() != self.axes(),
            },
    {
        proof {
            use_type_invariant(self);
        }
        if point.shape() != self.dimension {
            return Err(ClosestError::DimensionMismatch);
        }
        let count: usize = self.data.len();
        let mut heap = NeighborHeap::new(k);
        let ghost none = Seq::<RawNeighbor>::empty();
        let ghost fresh = heap@;
        let Ghost(passed) = self.nearest_neighbors(
            point,
            k,
            &self.root_node,
            0,
            &mut heap,
            distance_metric,
            Ghost(0),
            Ghost(count as int),
            Ghost(none),
        );
        let ghost kept = heap@;
        let sorted = heap.into_sorted_vec();
        proof {
            broadcast use vstd::multiset::group_multiset_axioms;

            let all = candidates(*distance_metric, point@, positions(self@), 0, count as int);
            lemma_no_items(none);
            lemma_no_items(fresh);
            assert(tally(sorted@, passed) =~= all.to_multiset());
            to_multiset_len(kept);
            to_multiset_len(sorted@);
            to_multiset_len(passed);
            to_multiset_len(all);
            assert(sorted@.len() + passed.len() == count);
            lemma_kept_are_records(*distance_metric, point@, positions(self@), sorted@, passed);
            if prunable(*distance_metric) {
                assert forall|i: int, j: int|
                    0 <= i < sorted@.len() && 0 <= j < passed.len() implies sorted@[i].distance
                    <= passed[j].distance by {
                    assert(sorted@.contains(sorted@[i]));
                    to_multiset_contains(sorted@, sorted@[i]);
                    to_multiset_contains(kept, sorted@[i]);
                    let m = choose|m: int| 0 <= m < kept.len() && kept[m] == sorted@[i];
                    assert(kept[m].distance <= passed[j].distance);
                }
                lemma_kept_are_nearest(
                    *distance_metric,
                    point@,
                    positions(self@),
                    sorted@,
                    passed,
                    k as nat,
                );
            }
        }
        let neighbors = self.as_neighbors(&sorted);
        proof {
            let slots = Seq::new(sorted@.len(), |j: int| sorted@[j].data_pointer as int);
            assert(distances_of(neighbors@) =~= raw_distances(sorted@));
            assert(nearest_first(neighbors@)) by {
                assert forall|i: int, j: int| 0 <= i <= j < neighbors@.len() implies neighbors@[i].distance
                    <= neighbors@[j].distance by {
                    assert(sorted@[i].distance <= sorted@[j].distance);
                }
            }
            assert(drawn_from(neighbors@, slots, self@, *distance_metric, point@)) by {
                assert forall|a: int, b: int|
                    0 <= a < slots.len() && 0 <= b < slots.len() && a != b implies slots[a]
                    != slots[b] by {
                    if a < b {
                        assert(sorted@[a].data_pointer != sorted@[b].data_pointer);
                    } else {
                        assert(sorted@[b].data_pointer != sorted@[a].data_pointer);
                    }
                }
                assert forall|j: int| 0 <= j < slots.len() implies {
                    &&& 0 <= #[trigger] slots[j] < self@.len()
                    &&& neighbors@[j].distance == distance_metric.spec_distance(
                        point@,
                        self@[slots[j]].point@,
                    )
                    &&& cloned(self@[slots[j]].data, neighbors@[j].data)
                } by {
                    assert(sorted@[j].data_pointer < self@.len());
                    assert(positions(self@)[slots[j]] == self@[slots[j]].point@);
                }
            }
            assert(answers(neighbors@, self@, *distance_metric, point@, k as nat));
        }
        Ok(neighbors)
    }
}

} // verus!
