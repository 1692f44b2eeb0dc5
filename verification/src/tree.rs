//! The partition tree: its shape, and how it is built from a set of records.
use vstd::prelude::*;
use vstd::std_specs::iter::IteratorSpec;
use crate::error::ClosestError;
use crate::heap::{
    lemma_same_items_member, lemma_same_items_trans, lemma_same_items_widen, same_items,
    sort_range, Ranked,
};
use crate::point::{positions, uniform, Data, Point};

verus! {

/// A subtree: either an inner node, or a bucket `(start, stop)` that stands
/// for the records at `start..stop` of the backing storage.
#[derive(Debug)]
pub enum NodeOrDataPointer {
    Node(Node),
    Data((usize, usize)),
}

/// An inner node: the record at `data_pointer` splits the records of the
/// subtree into those before it, on the left, and those after it, on the right.
#[derive(Debug)]
pub struct Node {
    pub data_pointer: usize,
    pub left: Box<NodeOrDataPointer>,
    pub right: Box<NodeOrDataPointer>,
}

/// Whether a stretch of `len` records is split further, rather than kept as
/// one bucket.
pub open spec fn splits(len: int, min_points: int, dimension: int) -> bool {
    len >= min_points && len >= 3 && dimension > 0
}

/// The tree that partitions the slots `lo..hi`: a stretch that is split has
/// its middle slot as the pivot, the slots before it on the left and the
/// slots after it on the right.
pub open spec fn partition(lo: int, hi: int, min_points: int, dimension: int) -> NodeOrDataPointer
    decreases hi - lo,
{
    if splits(hi - lo, min_points, dimension) {
        let median = lo + (hi - lo) / 2;
        NodeOrDataPointer::Node(
            Node {
                data_pointer: median as usize,
                left: Box::new(partition(lo, median, min_points, dimension)),
                right: Box::new(partition(median + 1, hi, min_points, dimension)),
            },
        )
    } else {
        NodeOrDataPointer::Data((lo as usize, hi as usize))
    }
}

impl NodeOrDataPointer {
    /// The slots of the backing storage that this subtree refers to, each
    /// bucket's and each pivot's, from left to right.
    pub open spec fn slots(self) -> Seq<int>
        decreases self,
    {
        match self {
            NodeOrDataPointer::Data((start, stop)) => Seq::new(
                (stop - start) as nat,
                |i: int| start + i,
            ),
            NodeOrDataPointer::Node(n) => n.left.slots() + seq![n.data_pointer as int]
                + n.right.slots(),
        }
    }

    /// This subtree stands for the slots `lo..hi`: its buckets are not empty,
    /// and buckets and pivots follow one another without gap or overlap.
    pub open spec fn covers(self, lo: int, hi: int) -> bool
        decreases self,
    {
        match self {
            NodeOrDataPointer::Data((start, stop)) => start == lo && stop == hi && lo < hi,
            NodeOrDataPointer::Node(n) => {
                &&& lo <= n.data_pointer < hi
                &&& n.left.covers(lo, n.data_pointer as int)
                &&& n.right.covers(n.data_pointer + 1, hi)
            },
        }
    }

    /// Every inner node at depth `d` of this subtree splits on axis
    /// `d % dimension`: on that axis no record on its left lies beyond the
    /// pivot and no record on its right lies before it.
    pub open spec fn ordered(
        self,
        points: Seq<Seq<i32>>,
        lo: int,
        hi: int,
        depth: int,
        dimension: int,
    ) -> bool
        decreases self,
    {
        match self {
            NodeOrDataPointer::Data(_) => true,
            NodeOrDataPointer::Node(n) => {
                let axis = depth % dimension;
                let pivot = n.data_pointer as int;
                &&& dimension > 0
                &&& lo <= pivot < hi
                &&& forall|i: int| lo <= i < pivot ==> (#[trigger] points[i])[axis] <= points[pivot][axis]
                &&& forall|i: int| pivot < i < hi ==> points[pivot][axis] <= (#[trigger] points[i])[axis]
                &&& n.left.ordered(points, lo, pivot, depth + 1, dimension)
                &&& n.right.ordered(points, pivot + 1, hi, depth + 1, dimension)
            },
        }
    }
}

/// The partition of a stretch that is not empty stands for exactly that
/// stretch.
pub proof fn lemma_partition_covers(lo: int, hi: int, min_points: int, dimension: int)
    requires
        0 <= lo < hi <= usize::MAX,
    ensures
        partition(lo, hi, min_points, dimension).covers(lo, hi),
    decreases hi - lo,
{
    if splits(hi - lo, min_points, dimension) {
        let median = lo + (hi - lo) / 2;
        lemma_partition_covers(lo, median, min_points, dimension);
        lemma_partition_covers(median + 1, hi, min_points, dimension);
    }
}

/// The slots `lo..hi`, in ascending order.
pub open spec fn stretch(lo: int, hi: int) -> Seq<int> {
    Seq::new((hi - lo) as nat, |i: int| lo + i)
}

/// A subtree that stands for the slots `lo..hi` refers to each of them once,
/// in ascending order, and to no other slot: its buckets and pivots leave
/// none out and name none twice.
pub proof fn lemma_covered_slots(node: NodeOrDataPointer, lo: int, hi: int)
    requires
        node.covers(lo, hi),
    ensures
        lo < hi,
        node.slots() == stretch(lo, hi),
    decreases node,
{
    match node {
        NodeOrDataPointer::Data((start, stop)) => {
            assert(node.slots() =~= stretch(lo, hi));
        },
        NodeOrDataPointer::Node(n) => {
            let pivot = n.data_pointer as int;
            lemma_covered_slots(*n.left, lo, pivot);
            lemma_covered_slots(*n.right, pivot + 1, hi);
            assert(node.slots() =~= stretch(lo, hi));
        },
    }
}

/// Whether a subtree is ordered depends only on the points of its own stretch.
pub proof fn lemma_ordered_frame(
    node: NodeOrDataPointer,
    before: Seq<Seq<i32>>,
    after: Seq<Seq<i32>>,
    lo: int,
    hi: int,
    depth: int,
    dimension: int,
)
    requires
        node.ordered(before, lo, hi, depth, dimension),
        forall|i: int| lo <= i < hi ==> before[i] == after[i],
    ensures
        node.ordered(after, lo, hi, depth, dimension),
    decreases node,
{
    match node {
        NodeOrDataPointer::Data(_) => {},
        NodeOrDataPointer::Node(n) => {
            let pivot = n.data_pointer as int;
            lemma_ordered_frame(*n.left, before, after, lo, pivot, depth + 1, dimension);
            lemma_ordered_frame(*n.right, before, after, pivot + 1, hi, depth + 1, dimension);
        },
    }
}

impl<T: Clone> Ranked for Data<T> {
    open spec fn rank(&self, by: int) -> int {
        self.point@[by] as int
    }

    open spec fn ranked(&self, by: int) -> bool {
        0 <= by < self.point@.len()
    }

    fn rank_le(&self, other: &Self, by: usize) -> (le: bool) {
        self.point.point(by) <= other.point.point(by)
    }
}

/// A rearrangement of records of one dimension has that dimension too.
pub proof fn lemma_same_items_uniform<T: Clone>(
    a: Seq<Data<T>>,
    b: Seq<Data<T>>,
    lo: int,
    hi: int,
    dimension: nat,
)
    requires
        same_items(a, b, lo, hi),
        0 <= lo <= hi <= a.len(),
        uniform(a, dimension),
    ensures
        uniform(b, dimension),
{
    assert forall|i: int| 0 <= i < b.len() implies (#[trigger] b[i]).point@.len() == dimension by {
        if lo <= i < hi {
            let j = lemma_same_items_member(a, b, lo, hi, i);
            assert(a[j].point@.len() == dimension);
        } else {
            assert(a[i] == b[i]);
        }
    }
}

/// Builds the subtree for the records at `lo..hi`, at depth `depth` of the
/// whole tree, and rearranges those records to fit it.
fn build_tree<T: Clone>(
    data: &mut Vec<Data<T>>,
    lo: usize,
    hi: usize,
    depth: usize,
    point_len: usize,
    min_points: usize,
) -> (node: NodeOrDataPointer)
    requires
        lo < hi <= old(data)@.len(),
        uniform(old(data)@, point_len as nat),
        depth + (hi - lo) <= usize::MAX,
    ensures
        same_items(old(data)@, final(data)@, lo as int, hi as int),
        uniform(final(data)@, point_len as nat),
        node == partition(lo as int, hi as int, min_points as int, point_len as int),
        node.ordered(positions(final(data)@), lo as int, hi as int, depth as int, point_len as int),
    decreases hi - lo,
{
    let len: usize = hi - lo;
    if len < min_points || len < 3 || point_len == 0 {
        assert(data@.subrange(lo as int, hi as int) =~= old(data)@.subrange(lo as int, hi as int));
        return NodeOrDataPointer::Data((lo, hi));
    }
    let axis: usize = depth % point_len;
    sort_range(data, lo, hi, axis);
    let ghost sorted = data@;
    let median: usize = lo + len / 2;
    proof {
        lemma_same_items_uniform(old(data)@, sorted, lo as int, hi as int, point_len as nat);
    }
    let left = build_tree(data, lo, median, depth + 1, point_len, min_points);
    let ghost halfway = data@;
    let right = build_tree(data, median + 1, hi, depth + 1, point_len, min_points);
    proof {
        let done = data@;
        lemma_same_items_widen(sorted, halfway, lo as int, median as int, lo as int, hi as int);
        lemma_same_items_widen(halfway, done, median + 1, hi as int, lo as int, hi as int);
        lemma_same_items_trans(old(data)@, sorted, halfway, lo as int, hi as int);
        lemma_same_items_trans(old(data)@, halfway, done, lo as int, hi as int);
        let points = positions(done);
        assert forall|i: int| lo <= i < median implies (#[trigger] points[i])[axis as int]
            <= points[median as int][axis as int] by {
            let j = lemma_same_items_member(sorted, halfway, lo as int, median as int, i);
            assert(done[i] == halfway[i]);
            assert(sorted[j].rank(axis as int) <= sorted[median as int].rank(axis as int));
        }
        assert forall|i: int| median < i < hi implies points[median as int][axis as int] <= (
        #[trigger] points[i])[axis as int] by {
            let j = lemma_same_items_member(halfway, done, median + 1, hi as int, i);
            assert(halfway[j] == sorted[j]);
            assert(sorted[median as int].rank(axis as int) <= sorted[j].rank(axis as int));
        }
        assert forall|i: int| lo <= i < median implies positions(halfway)[i] == points[i] by {
            assert(done[i] == halfway[i]);
        }
        lemma_ordered_frame(
            left,
            positions(halfway),
            points,
            lo as int,
            median as int,
            depth + 1,
            point_len as int,
        );
    }
    NodeOrDataPointer::Node(Node { data_pointer: median, left: Box::new(left), right: Box::new(right) })
}

/// A k-d tree: the records, rearranged, and the partition that indexes them.
#[derive(Debug)]
pub struct KDTree<T: Clone> {
    pub(crate) root_node: NodeOrDataPointer,
    pub(crate) data: Vec<Data<T>>,
    pub(crate) dimension: usize,
}

impl<T: Clone> View for KDTree<T> {
    type V = Seq<Data<T>>;

    /// The records of the tree, in the order of its backing storage.
    open(crate) spec fn view(&self) -> Seq<Data<T>> {
        self.data@
    }
}

impl<T: Clone> KDTree<T> {
    /// The tree holds at least one record, all records have its dimension,
    /// and its partition stands for all of them and is ordered.
    #[verifier::type_invariant]
    pub open(crate) spec fn well_formed(&self) -> bool {
        &&& self.data@.len() > 0
        &&& uniform(self.data@, self.dimension as nat)
        &&& self.root_node.covers(0, self.data@.len() as int)
        &&& self.root_node.ordered(
            positions(self.data@),
            0,
            self.data@.len() as int,
            0,
            self.dimension as int,
        )
    }

    /// The partition of the tree.
    pub open(crate) spec fn root(&self) -> NodeOrDataPointer {
        self.root_node
    }

    /// The number of coordinates of every record of the tree.
    pub open(crate) spec fn axes(&self) -> nat {
        self.dimension as nat
    }

    /// What building a tree of `records` gives. Without records there is no
    /// tree, and none if the records differ in dimension. Otherwise the tree
    /// holds the same records, in some order, under the partition of their
    /// slots.
    pub open spec fn built_from(
        records: Seq<Data<T>>,
        min_points: usize,
        built: Result<Self, ClosestError>,
    ) -> bool {
        match built {
            Ok(tree) => {
                &&& records.len() > 0
                &&& uniform(records, records[0].point@.len())
                &&& tree@.to_multiset() == records.to_multiset()
                &&& tree.axes() == records[0].point@.len()
                &&& tree.root() == partition(
                    0,
                    records.len() as int,
                    min_points as int,
                    records[0].point@.len() as int,
                )
                &&& tree.well_formed()
            },
            Err(e) => if records.len() == 0 {
                e == ClosestError::EmptyInput
            } else {
                e == ClosestError::DimensionMismatch && !uniform(records, records[0].point@.len())
            },
        }
    }

    /// Builds the tree of the records that `data` yields, as `from_vec` does
    /// of a vector.
    pub fn from_iter<I: Iterator<Item = Data<T>>>(data: I, min_points: usize) -> (built: Result<
        Self,
        ClosestError,
    >)
        requires
            data.obeys_prophetic_iter_laws(),
            data.decrease() is Some,
        ensures
            Self::built_from(data.remaining(), min_points, built),
    {
        let mut source = data;
        let mut records: Vec<Data<T>> = Vec::new();
        loop
            invariant_except_break
                source.obeys_prophetic_iter_laws(),
                source.decrease() is Some,
                records@ + source.remaining() == data.remaining(),
            ensures
                records@ == data.remaining(),
            decreases source.decrease()->0,
        {
            match source.next() {
                Some(record) => {
                    records.push(record);
                    assert(records@ + source.remaining() =~= data.remaining());
                },
                None => {
                    assert(records@ =~= data.remaining());
                    break ;
                },
            }
        }
        Self::from_vec(records, min_points)
    }

    /// Builds the tree of the given records, which it rearranges to fit the
    /// partition. A stretch of records is split as long as it has at least
    /// `min_points` records, and at least three; it is split at its median on
    /// the axis that the depth selects. Records without coordinates have no
    /// axis to split on and are kept as one bucket.
    pub fn from_vec(data: Vec<Data<T>>, min_points: usize) -> (built: Result<Self, ClosestError>)
        ensures
            Self::built_from(data@, min_points, built),
    {
        let mut records = data;
        let count: usize = records.len();
        if count == 0 {
            return Err(ClosestError::EmptyInput);
        }
        let point_len: usize = records[0].point.shape();
        let mut i: usize = 1;
        while i < count
            invariant
                1 <= i <= count,
                count == records@.len(),
                records@ == data@,
                point_len == data@[0].point@.len(),
                forall|j: int| 0 <= j < i ==> (#[trigger] records@[j]).point@.len() == point_len,
            decreases count - i,
        {
            if records[i].point.shape() != point_len {
                return Err(ClosestError::DimensionMismatch);
            }
            i = i + 1;
        }
        let root_node = build_tree(&mut records, 0, count, 0, point_len, min_points);
        proof {
            assert(records@.subrange(0, count as int) =~= records@);
            assert(data@.subrange(0, count as int) =~= data@);
            lemma_partition_covers(0, count as int, min_points as int, point_len as int);
        }
        Ok(KDTree { root_node, data: records, dimension: point_len })
    }

    /// The partition of a tree of `n` records refers to each of the slots
    /// `0..n` once, and to nothing else.
    pub proof fn lemma_slots(self)
        requires
            self.well_formed(),
        ensures
            self.root().slots() == stretch(0, self@.len() as int),
            self.root().slots().no_duplicates(),
            forall|slot: int| 0 <= slot < self@.len() <==> self.root().slots().contains(slot),
    {
        let n = self@.len() as int;
        lemma_covered_slots(self.root(), 0, n);
        assert forall|slot: int| 0 <= slot < n implies stretch(0, n).contains(slot) by {
            assert(stretch(0, n)[slot] == slot);
        }
    }

    /// The root of the tree, if it is an inner node.
    pub fn get_root_node(&self) -> (root: Result<&Node, ClosestError>)
        ensures
            match root {
                Ok(n) => self.root() == NodeOrDataPointer::Node(*n),
                Err(e) => e == ClosestError::RootNodeIsData && self.root() is Data,
            },
    {
        match &self.root_node {
            NodeOrDataPointer::Data(_) => Err(ClosestError::RootNodeIsData),
            NodeOrDataPointer::Node(n) => Ok(n),
        }
    }

    /// The record at slot `data_idx` of the backing storage.
    pub(crate) fn get_data(&self, data_idx: usize) -> (record: &Data<T>)
        requires
            data_idx < self@.len(),
        ensures
            *record == self@[data_idx as int],
    {
        &self.data[data_idx]
    }

    /// The position of the record at slot `data_idx` of the backing storage.
    pub(crate) fn get_data_point(&self, data_idx: usize) -> (point: &Point)
        requires
            data_idx < self@.len(),
        ensures
            *point == self@[data_idx as int].point,
    {
        &self.get_data(data_idx).point
    }

    /// The number of records of the tree.
    pub fn len(&self) -> (count: usize)
        ensures
            count == self@.len(),
            count > 0,
    {
        proof {
            use_type_invariant(self);
        }
        self.data.len()
    }

    /// The number of coordinates of every record of the tree.
    pub fn dimension(&self) -> (axes: usize)
        ensures
            axes == self.axes(),
    {
        self.dimension
    }
}

} // verus!
