//! Distance metrics, and the squared Euclidean distance as the default one.
use vstd::prelude::*;
use crate::point::Point;

verus! {

/// The square of the difference of two coordinates.
pub open spec fn squared_gap(a: int, b: int) -> nat {
    ((a - b) * (a - b)) as nat
}

/// The sum of the squared gaps on the first `axes` axes.
pub open spec fn squared_gaps(one: Seq<i32>, other: Seq<i32>, axes: nat) -> nat
    decreases axes,
{
    if axes == 0 {
        0
    } else {
        squared_gaps(one, other, (axes - 1) as nat) + squared_gap(
            one[axes - 1] as int,
            other[axes - 1] as int,
        )
    }
}

/// The squared Euclidean distance of two points, taken over the axes that
/// both of them have.
pub open spec fn squared_euclidean(one: Seq<i32>, other: Seq<i32>) -> nat {
    squared_gaps(one, other, if one.len() <= other.len() { one.len() } else { other.len() })
}

/// A squared gap of two grid coordinates fits in 64 bits.
pub proof fn lemma_squared_gap_bound(a: i32, b: i32)
    ensures
        squared_gap(a as int, b as int) == (a - b) * (a - b),
        squared_gap(a as int, b as int) <= 0xFFFF_FFFE_0000_0001,
{
    let d: int = a - b;
    assert(-0xFFFF_FFFF <= d <= 0xFFFF_FFFF);
    assert(0 <= d * d <= 0xFFFF_FFFF * 0xFFFF_FFFF) by (nonlinear_arith)
        requires
            -0xFFFF_FFFF <= d <= 0xFFFF_FFFF,
    ;
}

/// The sum over the first `axes` axes is at most `axes` times the largest
/// squared gap, and it grows with `axes`.
pub proof fn lemma_squared_gaps_bound(one: Seq<i32>, other: Seq<i32>, axes: nat)
    ensures
        squared_gaps(one, other, axes) <= axes * 0xFFFF_FFFE_0000_0001,
    decreases axes,
{
    if axes > 0 {
        lemma_squared_gaps_bound(one, other, (axes - 1) as nat);
        lemma_squared_gap_bound(one[axes - 1], other[axes - 1]);
        assert(axes * 0xFFFF_FFFE_0000_0001 == (axes - 1) * 0xFFFF_FFFE_0000_0001
            + 0xFFFF_FFFE_0000_0001) by (nonlinear_arith);
    }
}

/// The squared gap on any one of the first `axes` axes is at most the sum
/// over all of them.
pub proof fn lemma_squared_gaps_dominate(one: Seq<i32>, other: Seq<i32>, axes: nat, axis: int)
    requires
        0 <= axis < axes,
    ensures
        squared_gap(one[axis] as int, other[axis] as int) <= squared_gaps(one, other, axes),
    decreases axes,
{
    if axis < axes - 1 {
        lemma_squared_gaps_dominate(one, other, (axes - 1) as nat, axis);
    }
}

/// The squared Euclidean distance of two points that a vector can hold fits
/// in 128 bits.
pub proof fn lemma_squared_euclidean_fits(one: Seq<i32>, other: Seq<i32>)
    requires
        one.len() <= usize::MAX || other.len() <= usize::MAX,
    ensures
        squared_euclidean(one, other) <= u128::MAX,
{
    let axes: nat = if one.len() <= other.len() {
        one.len()
    } else {
        other.len()
    };
    lemma_squared_gaps_bound(one, other, axes);
    assert(axes * 0xFFFF_FFFE_0000_0001 <= 0xFFFF_FFFF_FFFF_FFFF * 0xFFFF_FFFE_0000_0001)
        by (nonlinear_arith)
        requires
            0 <= axes <= 0xFFFF_FFFF_FFFF_FFFF,
    ;
}

/// A way to measure how far apart two points are.
///
/// A search prunes with the squared gap between the query point and a
/// splitting plane. It finds the nearest records under every metric that is
/// `prunable`; under another metric it still returns records in ascending
/// order of distance, but not always the nearest ones.
pub trait DistanceMetric {
    /// The distance that this metric assigns to two positions. Unless a
    /// metric says otherwise, it is the squared Euclidean distance.
    open spec fn spec_distance(&self, one: Seq<i32>, other: Seq<i32>) -> u128 {
        squared_euclidean(one, other) as u128
    }

    /// The distance between `one` and `other`.
    fn distance(&self, one: &Point, other: &Point) -> (d: u128)
        ensures
            d == self.spec_distance(one@, other@),
    ;
}

/// Under `metric`, `one` and `other` are at least as far apart as the square of
/// their gap on `axis`.
pub open spec fn gap_bounds_distance<D: DistanceMetric>(
    metric: D,
    one: Seq<i32>,
    other: Seq<i32>,
    axis: int,
) -> bool {
    squared_gap(one[axis] as int, other[axis] as int) <= metric.spec_distance(one, other)
}

/// Under `metric`, two points of equal dimension are at least as far apart as
/// the square of their gap on any one axis.
pub open spec fn prunable<D: DistanceMetric>(metric: D) -> bool {
    forall|one: Seq<i32>, other: Seq<i32>, axis: int|
        one.len() == other.len() && one.len() <= usize::MAX && 0 <= axis < one.len()
            ==> #[trigger] gap_bounds_distance(metric, one, other, axis)
}

/// The squared Euclidean distance: the sum of the squared gaps on all axes.
#[derive(Debug, Default, Clone, Copy)]
pub struct SquaredEuclideanDistance {}

impl DistanceMetric for SquaredEuclideanDistance {
    fn distance(&self, one: &Point, other: &Point) -> (d: u128) {
        let axes: usize = if one.shape() <= other.shape() {
            one.shape()
        } else {
            other.shape()
        };
        let mut sum: u128 = 0;
        let mut i: usize = 0;
        while i < axes
            invariant
                i <= axes,
                axes <= one@.len(),
                axes <= other@.len(),
                one@.len() <= usize::MAX,
                sum == squared_gaps(one@, other@, i as nat),
            decreases axes - i,
        {
            let gap: i128 = one.point(i) as i128 - other.point(i) as i128;
            proof {
                lemma_squared_euclidean_fits(one@, other@);
                lemma_squared_gap_bound(one@[i as int], other@[i as int]);
                lemma_squared_gaps_bound(one@, other@, i as nat);
                assert(i * 0xFFFF_FFFE_0000_0001 <= 0xFFFF_FFFF_FFFF_FFFF * 0xFFFF_FFFE_0000_0001)
                    by (nonlinear_arith)
                    requires
                        0 <= i <= 0xFFFF_FFFF_FFFF_FFFF,
                ;
            }
            sum = sum + (gap * gap) as u128;
            i = i + 1;
        }
        proof {
            lemma_squared_euclidean_fits(one@, other@);
        }
        sum
    }
}

/// The squared Euclidean distance never falls below the squared gap on one
/// axis, so a search under it finds the nearest records.
pub proof fn lemma_squared_euclidean_is_prunable()
    ensures
        prunable(SquaredEuclideanDistance {  }),
{
    let metric = SquaredEuclideanDistance {  };
    assert forall|one: Seq<i32>, other: Seq<i32>, axis: int|
        one.len() == other.len() && one.len() <= usize::MAX && 0 <= axis
            < one.len() implies #[trigger] gap_bounds_distance(metric, one, other, axis) by {
        lemma_squared_gaps_dominate(one, other, one.len(), axis);
        lemma_squared_euclidean_fits(one, other);
    }
}

} // verus!
