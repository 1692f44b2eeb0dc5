//! What it means to be nearest: the distances that a search has to return,
//! and what follows from their definition.
use vstd::prelude::*;
use vstd::relations::{sorted_by, total_ordering};
use vstd::seq_lib::{
    lemma_multiset_commutative, lemma_sorted_unique, to_multiset_build, to_multiset_contains,
    to_multiset_insert, to_multiset_len, to_multiset_remove,
};
use crate::distance::{prunable, DistanceMetric};
use crate::neighbor::{by_distance, Neighbor, RawNeighbor};
use crate::point::{positions, Data};
use crate::search::{candidate, candidates, kept_best, tally};

verus! {

/// The order of distances: smaller is nearer.
pub open spec fn nearer_or_equal() -> spec_fn(int, int) -> bool {
    |a: int, b: int| a <= b
}

/// The distance from `point` to each of `points`, in their order.
pub open spec fn all_distances<D: DistanceMetric>(
    metric: D,
    point: Seq<i32>,
    points: Seq<Seq<i32>>,
) -> Seq<int> {
    points.map_values(|p: Seq<i32>| metric.spec_distance(point, p) as int)
}

/// The distances of the `k` points nearest to `point`, or of all points if
/// there are fewer: what remains of the distances to all points, sorted in
/// ascending order, when all but the first `k` are dropped.
pub open spec fn nearest_distances<D: DistanceMetric>(
    metric: D,
    point: Seq<i32>,
    points: Seq<Seq<i32>>,
    k: nat,
) -> Seq<int> {
    all_distances(metric, point, points).sort_by(nearer_or_equal()).take(
        if k <= points.len() {
            k as int
        } else {
            points.len() as int
        },
    )
}

/// The distances of a sequence of neighbours, in their order.
pub open spec fn distances_of<T: Clone>(neighbors: Seq<Neighbor<T>>) -> Seq<int> {
    neighbors.map_values(|n: Neighbor<T>| n.distance as int)
}

/// The neighbours come in ascending order of distance.
pub open spec fn nearest_first<T: Clone>(neighbors: Seq<Neighbor<T>>) -> bool {
    forall|i: int, j: int|
        0 <= i <= j < neighbors.len() ==> neighbors[i].distance <= neighbors[j].distance
}

/// The distances of a sequence of candidates, in their order.
pub open spec fn raw_distances(found: Seq<RawNeighbor>) -> Seq<int> {
    found.map_values(|c: RawNeighbor| c.distance as int)
}

/// `neighbors` stand for the records at `slots`, each for another one: a
/// neighbour has the distance of its record from `point` and a clone of its
/// payload.
pub open spec fn drawn_from<T: Clone, D: DistanceMetric>(
    neighbors: Seq<Neighbor<T>>,
    slots: Seq<int>,
    records: Seq<Data<T>>,
    metric: D,
    point: Seq<i32>,
) -> bool {
    &&& slots.len() == neighbors.len()
    &&& slots.no_duplicates()
    &&& forall|j: int|
        0 <= j < slots.len() ==> {
            &&& 0 <= #[trigger] slots[j] < records.len()
            &&& neighbors[j].distance == metric.spec_distance(point, records[slots[j]].point@)
            &&& cloned(records[slots[j]].data, neighbors[j].data)
        }
}

/// `neighbors` answer a search among `records` for the `k` nearest to
/// `point`. They are `k`, or all records if there are fewer, they come
/// nearest first, and each stands for another record. Under a metric that is
/// `prunable` their distances are the nearest distances.
pub open spec fn answers<T: Clone, D: DistanceMetric>(
    neighbors: Seq<Neighbor<T>>,
    records: Seq<Data<T>>,
    metric: D,
    point: Seq<i32>,
    k: nat,
) -> bool {
    &&& neighbors.len() == if k <= records.len() {
        k
    } else {
        records.len()
    }
    &&& nearest_first(neighbors)
    &&& exists|slots: Seq<int>| drawn_from(neighbors, slots, records, metric, point)
    &&& prunable(metric) ==> distances_of(neighbors) == nearest_distances(
        metric,
        point,
        positions(records),
        k,
    )
}

/// Smaller-or-equal is a total order of the integers.
pub proof fn lemma_nearer_is_total()
    ensures
        total_ordering(nearer_or_equal()),
{
}

/// Two sequences with the same items, in whatever order, have the same items
/// after a function is applied to each.
pub proof fn lemma_map_same_items<A, B>(a: Seq<A>, b: Seq<A>, f: spec_fn(A) -> B)
    requires
        a.to_multiset() == b.to_multiset(),
    ensures
        a.map_values(f).to_multiset() == b.map_values(f).to_multiset(),
    decreases a.len(),
{
    broadcast use vstd::multiset::group_multiset_axioms;

    to_multiset_len(a);
    to_multiset_len(b);
    if a.len() == 0 {
        assert(a.map_values(f) =~= b.map_values(f));
    } else {
        let x = a.last();
        let front = a.drop_last();
        assert(a =~= front.push(x));
        to_multiset_build(front, x);
        to_multiset_contains(b, x);
        assert(a.to_multiset().count(x) > 0);
        let m = choose|m: int| 0 <= m < b.len() && b[m] == x;
        let others = b.remove(m);
        to_multiset_remove(b, m);
        assert(front.to_multiset() =~= others.to_multiset());
        lemma_map_same_items(front, others, f);
        assert(a.map_values(f) =~= front.map_values(f).push(f(x)));
        to_multiset_build(front.map_values(f), f(x));
        assert(b.map_values(f) =~= others.map_values(f).insert(m, f(x)));
        to_multiset_insert(others.map_values(f), m, f(x));
    }
}

/// The distances of the candidates of all records are the distances to all
/// points.
pub proof fn lemma_candidate_distances<D: DistanceMetric>(
    metric: D,
    point: Seq<i32>,
    points: Seq<Seq<i32>>,
)
    ensures
        raw_distances(candidates(metric, point, points, 0, points.len() as int)) == all_distances(
            metric,
            point,
            points,
        ),
{
    assert(raw_distances(candidates(metric, point, points, 0, points.len() as int))
        =~= all_distances(metric, point, points));
}

/// Candidates in ascending order of distance, none of them farther away than
/// any of the others that were passed over, have the distances of the
/// nearest points, if kept and passed over together are the candidates of all
/// records.
pub proof fn lemma_kept_are_nearest<D: DistanceMetric>(
    metric: D,
    point: Seq<i32>,
    points: Seq<Seq<i32>>,
    kept: Seq<RawNeighbor>,
    passed: Seq<RawNeighbor>,
    k: nat,
)
    requires
        by_distance(kept),
        kept_best(kept, passed, k, true),
        tally(kept, passed) == candidates(
            metric,
            point,
            points,
            0,
            points.len() as int,
        ).to_multiset(),
    ensures
        raw_distances(kept) == nearest_distances(metric, point, points, k),
{
    broadcast use vstd::multiset::group_multiset_axioms;

    let all = candidates(metric, point, points, 0, points.len() as int);
    let f = |c: RawNeighbor| c.distance as int;
    let order = nearer_or_equal();
    let near = raw_distances(kept);
    let far = raw_distances(passed);
    let far_sorted = far.sort_by(order);
    let whole = near + far_sorted;
    let expected = all_distances(metric, point, points).sort_by(order);

    lemma_multiset_commutative(kept, passed);
    lemma_map_same_items(kept + passed, all, f);
    lemma_candidate_distances(metric, point, points);
    assert((kept + passed).map_values(f) =~= near + far);
    lemma_multiset_commutative(near, far);
    lemma_multiset_commutative(near, far_sorted);
    far.lemma_sort_by_ensures(order);
    all_distances(metric, point, points).lemma_sort_by_ensures(order);
    assert(whole.to_multiset() =~= expected.to_multiset());

    assert forall|i: int, j: int| 0 <= i < j < whole.len() implies order(whole[i], whole[j]) by {
        if j < near.len() {
            assert(kept[i].distance <= kept[j].distance);
        } else if i >= near.len() {
            assert(order(far_sorted[i - near.len()], far_sorted[j - near.len()]));
        } else {
            let d = far_sorted[j - near.len()];
            assert(far_sorted.contains(d));
            to_multiset_contains(far_sorted, d);
            to_multiset_contains(far, d);
            let m = choose|m: int| 0 <= m < far.len() && far[m] == d;
            assert(kept[i].distance <= passed[m].distance);
        }
    }
    lemma_sorted_unique(whole, expected, order);
    assert(whole =~= expected);

    to_multiset_len(kept);
    to_multiset_len(passed);
    to_multiset_len(all);
    to_multiset_len(far);
    to_multiset_len(far_sorted);
    assert(kept.len() + passed.len() == points.len());
    assert(near =~= whole.take(near.len() as int));
}

/// Candidates that are among the candidates of all records each stand for a
/// record, with its distance, and no two of them for the same one.
pub proof fn lemma_kept_are_records<D: DistanceMetric>(
    metric: D,
    point: Seq<i32>,
    points: Seq<Seq<i32>>,
    kept: Seq<RawNeighbor>,
    passed: Seq<RawNeighbor>,
)
    requires
        points.len() <= usize::MAX,
        tally(kept, passed) == candidates(
            metric,
            point,
            points,
            0,
            points.len() as int,
        ).to_multiset(),
    ensures
        forall|i: int|
            0 <= i < kept.len() ==> {
                &&& (#[trigger] kept[i]).data_pointer < points.len()
                &&& kept[i].distance == metric.spec_distance(
                    point,
                    points[kept[i].data_pointer as int],
                )
            },
        forall|i: int, j: int|
            0 <= i < j < kept.len() ==> kept[i].data_pointer != kept[j].data_pointer,
{
    broadcast use vstd::multiset::group_multiset_axioms;

    let all = candidates(metric, point, points, 0, points.len() as int);
    assert forall|i: int| 0 <= i < kept.len() implies {
        &&& (#[trigger] kept[i]).data_pointer < points.len()
        &&& kept[i] == candidate(metric, point, points, kept[i].data_pointer as int)
    } by {
        assert(kept.contains(kept[i]));
        to_multiset_contains(kept, kept[i]);
        to_multiset_contains(all, kept[i]);
        let m = choose|m: int| 0 <= m < all.len() && all[m] == kept[i];
        assert(all[m] == candidate(metric, point, points, m));
    }
    assert(all.no_duplicates());
    all.lemma_multiset_has_no_duplicates();
    assert forall|x: RawNeighbor| kept.to_multiset().contains(x) implies kept.to_multiset().count(
        x,
    ) == 1 by {
        assert(all.to_multiset().count(x) == kept.to_multiset().count(x)
            + passed.to_multiset().count(x));
    }
    kept.lemma_multiset_has_no_duplicates_conv();
    assert forall|i: int, j: int| 0 <= i < j < kept.len() implies kept[i].data_pointer
        != kept[j].data_pointer by {
        assert(kept[i] != kept[j]);
        assert(kept[i] == candidate(metric, point, points, kept[i].data_pointer as int));
        assert(kept[j] == candidate(metric, point, points, kept[j].data_pointer as int));
    }
}

/// Records that are the same but for their order have the same positions but
/// for their order.
pub proof fn lemma_positions_of_same_records<T: Clone>(a: Seq<Data<T>>, b: Seq<Data<T>>)
    requires
        a.to_multiset() == b.to_multiset(),
    ensures
        positions(a).to_multiset() == positions(b).to_multiset(),
{
    let place = |r: Data<T>| r.point@;
    lemma_map_same_items(a, b, place);
    assert(positions(a) =~= a.map_values(place));
    assert(positions(b) =~= b.map_values(place));
}

/// The nearest distances do not depend on the order of the points: two sets
/// of points that are the same but for their order give the same distances,
/// whatever the point asked for and however many neighbours are wanted.
pub proof fn lemma_order_of_points_is_immaterial<D: DistanceMetric>(
    metric: D,
    point: Seq<i32>,
    a: Seq<Seq<i32>>,
    b: Seq<Seq<i32>>,
    k: nat,
)
    requires
        a.to_multiset() == b.to_multiset(),
    ensures
        nearest_distances(metric, point, a, k) == nearest_distances(metric, point, b, k),
{
    let order = nearer_or_equal();
    let from_a = all_distances(metric, point, a);
    let from_b = all_distances(metric, point, b);
    lemma_map_same_items(a, b, |p: Seq<i32>| metric.spec_distance(point, p) as int);
    from_a.lemma_sort_by_ensures(order);
    from_b.lemma_sort_by_ensures(order);
    lemma_sorted_unique(from_a.sort_by(order), from_b.sort_by(order), order);
    to_multiset_len(a);
    to_multiset_len(b);
}

/// Two trees built of the same records, in whatever order and with whatever
/// bucket size, hold the same records but for their order, so a search
/// returns the same distances from both.
pub proof fn lemma_same_records_same_distances<T: Clone, D: DistanceMetric>(
    metric: D,
    point: Seq<i32>,
    a: Seq<Data<T>>,
    b: Seq<Data<T>>,
    k: nat,
)
    requires
        a.to_multiset() == b.to_multiset(),
    ensures
        nearest_distances(metric, point, positions(a), k) == nearest_distances(
            metric,
            point,
            positions(b),
            k,
        ),
{
    lemma_positions_of_same_records(a, b);
    lemma_order_of_points_is_immaterial(metric, point, positions(a), positions(b), k);
}

/// The nearest distances are in ascending order, there are `k` of them or as
/// many as there are points, they are distances to points, and every distance
/// that is left out is at least as large as each of them.
pub proof fn lemma_nearest_are_smallest<D: DistanceMetric>(
    metric: D,
    point: Seq<i32>,
    points: Seq<Seq<i32>>,
    k: nat,
)
    ensures
        nearest_distances(metric, point, points, k).len() == if k <= points.len() {
            k
        } else {
            points.len()
        },
        sorted_by(nearest_distances(metric, point, points, k), nearer_or_equal()),
        exists|others: Seq<int>|
            {
                &&& (nearest_distances(metric, point, points, k) + others).to_multiset()
                    == all_distances(metric, point, points).to_multiset()
                &&& forall|i: int, j: int|
                    0 <= i < nearest_distances(metric, point, points, k).len() && 0 <= j
                        < others.len() ==> nearest_distances(metric, point, points, k)[i]
                        <= others[j]
            },
{
    let order = nearer_or_equal();
    let all = all_distances(metric, point, points);
    let sorted = all.sort_by(order);
    let near = nearest_distances(metric, point, points, k);
    all.lemma_sort_by_ensures(order);
    to_multiset_len(all);
    to_multiset_len(sorted);
    let others = sorted.skip(near.len() as int);
    assert(near + others =~= sorted);
    assert forall|i: int, j: int| 0 <= i < near.len() && 0 <= j < others.len() implies near[i]
        <= others[j] by {
        assert(order(sorted[i], sorted[near.len() + j]));
    }
}

/// The first `k` of the `k + 1` nearest distances are the `k` nearest
/// distances: asking for one neighbour more changes none of the distances
/// returned before.
pub proof fn lemma_one_more_neighbor<D: DistanceMetric>(
    metric: D,
    point: Seq<i32>,
    points: Seq<Seq<i32>>,
    k: nat,
)
    ensures
        nearest_distances(metric, point, points, k).is_prefix_of(
            nearest_distances(metric, point, points, k + 1),
        ),
{
    let order = nearer_or_equal();
    let all = all_distances(metric, point, points);
    all.lemma_sort_by_ensures(order);
    to_multiset_len(all);
    to_multiset_len(all.sort_by(order));
}

/// Asking for no neighbour gives no distance.
pub proof fn lemma_no_neighbor_wanted<D: DistanceMetric>(
    metric: D,
    point: Seq<i32>,
    points: Seq<Seq<i32>>,
)
    ensures
        nearest_distances(metric, point, points, 0) == Seq::<int>::empty(),
{
    assert(nearest_distances(metric, point, points, 0) =~= Seq::<int>::empty());
}

/// Asking for at least as many neighbours as there are points gives the
/// distances to all points, in ascending order.
pub proof fn lemma_all_neighbors_wanted<D: DistanceMetric>(
    metric: D,
    point: Seq<i32>,
    points: Seq<Seq<i32>>,
    k: nat,
)
    requires
        k >= points.len(),
    ensures
        nearest_distances(metric, point, points, k).len() == points.len(),
        sorted_by(nearest_distances(metric, point, points, k), nearer_or_equal()),
        nearest_distances(metric, point, points, k).to_multiset() == all_distances(
            metric,
            point,
            points,
        ).to_multiset(),
{
    let order = nearer_or_equal();
    let all = all_distances(metric, point, points);
    all.lemma_sort_by_ensures(order);
    to_multiset_len(all);
    to_multiset_len(all.sort_by(order));
    assert(nearest_distances(metric, point, points, k) =~= all.sort_by(order));
}

} // verus!
