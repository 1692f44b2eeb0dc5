//! Points on the integer grid and the records that a tree stores.
use vstd::prelude::*;

verus! {

/// A position given by one grid coordinate per axis.
#[derive(Debug)]
pub struct Point {
    pub coordinates: Vec<i32>,
}

impl View for Point {
    type V = Seq<i32>;

    open spec fn view(&self) -> Seq<i32> {
        self.coordinates@
    }
}

impl Point {
    /// The point with the given coordinates.
    pub fn new(coordinates: Vec<i32>) -> (point: Self)
        ensures
            point@ == coordinates@,
    {
        Point { coordinates }
    }

    /// The number of axes of this point.
    pub fn shape(&self) -> (axes: usize)
        ensures
            axes == self@.len(),
    {
        self.coordinates.len()
    }

    /// The coordinate on axis `i`.
    pub fn point(&self, i: usize) -> (coordinate: i32)
        requires
            i < self@.len(),
        ensures
            coordinate == self@[i as int],
    {
        self.coordinates[i]
    }
}

/// A payload together with the position it is found at.
#[derive(Debug)]
pub struct Data<T: Clone> {
    pub data: T,
    pub point: Point,
}

impl<T: Clone> Data<T> {
    /// The record that places `data` at `coordinates`.
    pub fn new(data: T, coordinates: Vec<i32>) -> (record: Self)
        ensures
            record.data == data,
            record.point@ == coordinates@,
    {
        Data { data, point: Point { coordinates } }
    }
}

/// The positions of a sequence of records, in the same order.
pub open spec fn positions<T: Clone>(records: Seq<Data<T>>) -> Seq<Seq<i32>> {
    Seq::new(records.len(), |i: int| records[i].point@)
}

/// Every record has exactly `dimension` coordinates.
pub open spec fn uniform<T: Clone>(records: Seq<Data<T>>, dimension: nat) -> bool {
    forall|i: int| 0 <= i < records.len() ==> (#[trigger] records[i]).point@.len() == dimension
}

} // verus!
