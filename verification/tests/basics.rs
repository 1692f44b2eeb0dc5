use closest::{
    ClosestError, Data, DistanceMetric, Neighbor, Point, RawNeighbor, SquaredEuclideanDistance,
};

#[test]
fn add_sums() {
    assert_eq!(closest::add(0, 0), 0);
    assert_eq!(closest::add(usize::MAX - 7, 7), usize::MAX);
}

#[test]
fn point_keeps_its_coordinates() {
    let point = Point::new(vec![4, -5, 6]);
    assert_eq!(point.shape(), 3);
    assert_eq!(point.point(0), 4);
    assert_eq!(point.point(1), -5);
    assert_eq!(point.point(2), 6);
    assert_eq!(point.coordinates, vec![4, -5, 6]);
    assert_eq!(Point::new(vec![]).shape(), 0);
}

#[test]
fn record_keeps_payload_and_position() {
    let record = Data::new("here", vec![1, 2]);
    assert_eq!(record.data, "here");
    assert_eq!(record.point.coordinates, vec![1, 2]);
}

#[test]
fn squared_euclidean_sums_squared_gaps() {
    let metric = SquaredEuclideanDistance::default();
    let d = |a: Vec<i32>, b: Vec<i32>| metric.distance(&Point::new(a), &Point::new(b));
    assert_eq!(d(vec![], vec![]), 0);
    assert_eq!(d(vec![3], vec![3]), 0);
    assert_eq!(d(vec![1, 2, 3], vec![4, 6, 3]), 25);
    assert_eq!(d(vec![4, 6, 3], vec![1, 2, 3]), 25);
    assert_eq!(d(vec![-3, 0], vec![0, 4]), 25);
    assert_eq!(d(vec![237, 139, 69], vec![255, 106, 0]), 6174);
}

#[test]
fn squared_euclidean_goes_by_shared_axes() {
    let metric = SquaredEuclideanDistance::default();
    let short = Point::new(vec![1, 1]);
    let long = Point::new(vec![4, 5, 100]);
    assert_eq!(metric.distance(&short, &long), 25);
    assert_eq!(metric.distance(&long, &short), 25);
}

#[test]
fn squared_euclidean_holds_the_widest_gaps() {
    let metric = SquaredEuclideanDistance::default();
    let low = Point::new(vec![i32::MIN; 4]);
    let high = Point::new(vec![i32::MAX; 4]);
    let gap: u128 = (u32::MAX as u128) * (u32::MAX as u128);
    assert_eq!(metric.distance(&low, &high), 4 * gap);
    assert_eq!(gap, 18446744065119617025);
}

#[test]
fn candidate_becomes_neighbor() {
    let data = vec![Data::new("zero", vec![0]), Data::new("one", vec![1])];
    let candidate = RawNeighbor::new(17, 1);
    assert_eq!(candidate.distance, 17);
    assert_eq!(candidate.data_pointer, 1);
    let neighbor = candidate.as_neighbor(&data);
    assert_eq!(neighbor.distance, 17);
    assert_eq!(neighbor.data, "one");
}

#[test]
fn neighbors_compare_by_distance() {
    let near = Neighbor { distance: 1, data: "b" };
    let far = Neighbor { distance: 2, data: "a" };
    let also_near = Neighbor { distance: 1, data: "c" };
    assert!(near < far);
    assert!(far > near);
    assert!(near <= also_near);
    assert!(near == also_near);
    assert!(near != far);
    assert!(RawNeighbor::new(3, 9) < RawNeighbor::new(4, 0));
    assert!(RawNeighbor::new(3, 9) == RawNeighbor::new(3, 0));
    assert_eq!(
        RawNeighbor::new(5, 0).partial_cmp(&RawNeighbor::new(4, 0)),
        Some(std::cmp::Ordering::Greater)
    );
}

#[test]
fn errors_have_messages() {
    assert_eq!(ClosestError::EmptyInput.message(), "At least one position is needed.");
    assert_eq!(ClosestError::DimensionMismatch.message(), "All positions must have the same length");
    assert_eq!(ClosestError::RootNodeIsData.message(), "Root node is data.");
}
