use closest::{
    ClosestError, Data, DistanceMetric, KDTree, Neighbor, NodeOrDataPointer, Point,
    SquaredEuclideanDistance,
};

/// A small generator of repeatable pseudo-random numbers.
struct Lcg(u64);

impl Lcg {
    fn next(&mut self) -> u64 {
        self.0 = self.0.wrapping_mul(6364136223846793005).wrapping_add(1442695040888963407);
        self.0 >> 33
    }

    fn coordinate(&mut self, spread: u64) -> i32 {
        (self.next() % spread) as i32 - (spread / 2) as i32
    }
}

fn cloud(seed: u64, count: usize, axes: usize, spread: u64) -> Vec<(usize, Vec<i32>)> {
    let mut lcg = Lcg(seed);
    (0..count).map(|i| (i, (0..axes).map(|_| lcg.coordinate(spread)).collect())).collect()
}

fn records(points: &[(usize, Vec<i32>)]) -> Vec<Data<usize>> {
    points.iter().map(|(i, p)| Data::new(*i, p.clone())).collect()
}

fn squared(a: &[i32], b: &[i32]) -> u128 {
    a.iter().zip(b).map(|(x, y)| ((*x as i128 - *y as i128).pow(2)) as u128).sum()
}

fn brute_force(points: &[(usize, Vec<i32>)], query: &[i32], k: usize) -> Vec<u128> {
    let mut all: Vec<u128> = points.iter().map(|(_, p)| squared(p, query)).collect();
    all.sort();
    all.truncate(k);
    all
}

fn distances(found: &[Neighbor<usize>]) -> Vec<u128> {
    found.iter().map(|n| n.distance).collect()
}

fn slots_of(node: &NodeOrDataPointer, into: &mut Vec<usize>) {
    match node {
        NodeOrDataPointer::Data((start, stop)) => {
            assert!(start < stop);
            into.extend(*start..*stop);
        }
        NodeOrDataPointer::Node(n) => {
            slots_of(&n.left, into);
            into.push(n.data_pointer);
            slots_of(&n.right, into);
        }
    }
}

fn colors() -> Vec<Data<&'static str>> {
    vec![
        Data::new("blue", vec![0, 0, 255]),
        Data::new("red", vec![255, 0, 0]),
        Data::new("navy", vec![17, 4, 89]),
        Data::new("purple", vec![171, 3, 255]),
        Data::new("light-blue", vec![61, 118, 224]),
        Data::new("pink", vec![255, 3, 213]),
        Data::new("yellow", vec![255, 234, 0]),
        Data::new("green", vec![16, 145, 25]),
        Data::new("orange", vec![255, 106, 0]),
    ]
}

#[test]
fn nearest_colors_come_in_order() {
    let tree = KDTree::from_vec(colors(), 1).unwrap();
    let point = Point::new(vec![237, 139, 69]);
    let found = tree.get_nearest_neighbors(&point, 2, &SquaredEuclideanDistance::default()).unwrap();
    assert_eq!(found.len(), 2);
    assert_eq!(found[0].data, "orange");
    assert_eq!(found[0].distance, 6174);
    assert_eq!(found[1].data, "yellow");
    assert_eq!(found[1].distance, 14110);
}

#[test]
fn all_colors_come_sorted() {
    let tree = KDTree::from_vec(colors(), 30).unwrap();
    let point = Point::new(vec![237, 139, 69]);
    let found = tree.get_nearest_neighbors(&point, 100, &SquaredEuclideanDistance::default()).unwrap();
    let names: Vec<&str> = found.iter().map(|n| n.data).collect();
    assert_eq!(
        names,
        vec!["orange", "yellow", "red", "pink", "green", "light-blue", "purple", "navy", "blue"]
    );
    let expected: Vec<u128> = vec![6174, 14110, 24406, 39556, 50813, 55442, 57448, 67025, 110086];
    assert_eq!(found.iter().map(|n| n.distance).collect::<Vec<u128>>(), expected);
}

#[test]
fn no_neighbor_wanted_gives_none() {
    let tree = KDTree::from_vec(colors(), 1).unwrap();
    let point = Point::new(vec![1, 2, 3]);
    let found = tree.get_nearest_neighbors(&point, 0, &SquaredEuclideanDistance::default()).unwrap();
    assert!(found.is_empty());
}

#[test]
fn search_agrees_with_brute_force() {
    let metric = SquaredEuclideanDistance::default();
    for (seed, count, axes) in [(1u64, 1usize, 1usize), (2, 2, 2), (3, 3, 1), (4, 7, 3), (5, 64, 2), (6, 200, 3), (7, 333, 5)] {
        let points = cloud(seed, count, axes, 41);
        for min_points in [0usize, 1, 3, 4, 10, 30, 1000] {
            let tree = KDTree::from_vec(records(&points), min_points).unwrap();
            let mut lcg = Lcg(seed + 100);
            for _ in 0..20 {
                let query: Vec<i32> = (0..axes).map(|_| lcg.coordinate(61)).collect();
                for k in [0usize, 1, 2, 3, 5, 8, count, count + 3] {
                    let found = tree.get_nearest_neighbors(&Point::new(query.clone()), k, &metric).unwrap();
                    assert_eq!(distances(&found), brute_force(&points, &query, k));
                    let mut seen: Vec<usize> = found.iter().map(|n| n.data).collect();
                    for n in &found {
                        assert_eq!(squared(&points[n.data].1, &query), n.distance);
                    }
                    seen.sort();
                    seen.dedup();
                    assert_eq!(seen.len(), found.len());
                }
            }
        }
    }
}

#[test]
fn one_more_neighbor_keeps_the_others() {
    let metric = SquaredEuclideanDistance::default();
    let points = cloud(11, 150, 3, 25);
    let tree = KDTree::from_vec(records(&points), 5).unwrap();
    let point = Point::new(vec![2, -3, 4]);
    for k in 0..160 {
        let fewer = tree.get_nearest_neighbors(&point, k, &metric).unwrap();
        let more = tree.get_nearest_neighbors(&point, k + 1, &metric).unwrap();
        assert_eq!(distances(&fewer)[..], distances(&more)[..fewer.len()]);
    }
}

#[test]
fn order_of_records_does_not_matter() {
    let metric = SquaredEuclideanDistance::default();
    let points = cloud(21, 120, 2, 15);
    let mut turned = points.clone();
    turned.reverse();
    turned.rotate_left(17);
    let one = KDTree::from_vec(records(&points), 4).unwrap();
    let other = KDTree::from_vec(records(&turned), 4).unwrap();
    let mut lcg = Lcg(5);
    for _ in 0..50 {
        let query = Point::new(vec![lcg.coordinate(21), lcg.coordinate(21)]);
        for k in [1usize, 4, 9, 120] {
            let a = one.get_nearest_neighbors(&query, k, &metric).unwrap();
            let b = other.get_nearest_neighbors(&query, k, &metric).unwrap();
            assert_eq!(distances(&a), distances(&b));
        }
    }
}

#[test]
fn partition_names_each_slot_once() {
    for count in 1..80usize {
        for min_points in [0usize, 1, 2, 3, 4, 7, 30] {
            let points = cloud(count as u64, count, 2, 1000);
            let tree = KDTree::from_vec(records(&points), min_points).unwrap();
            assert_eq!(tree.len(), count);
            let mut slots = Vec::new();
            match tree.get_root_node() {
                Ok(root) => {
                    slots_of(&root.left, &mut slots);
                    slots.push(root.data_pointer);
                    slots_of(&root.right, &mut slots);
                    assert!(count >= 3 && count >= min_points);
                }
                Err(e) => {
                    assert_eq!(e, ClosestError::RootNodeIsData);
                    assert!(count < 3 || count < min_points);
                    slots.extend(0..count);
                }
            }
            assert_eq!(slots, (0..count).collect::<Vec<usize>>());
        }
    }
}

#[test]
fn pivot_is_the_middle_record() {
    let points = cloud(3, 9, 1, 1000);
    let tree = KDTree::from_vec(records(&points), 1).unwrap();
    let root = tree.get_root_node().unwrap();
    assert_eq!(root.data_pointer, 4);
    match root.left.as_ref() {
        NodeOrDataPointer::Node(n) => assert_eq!(n.data_pointer, 2),
        NodeOrDataPointer::Data(_) => panic!("four records are split"),
    }
    match root.right.as_ref() {
        NodeOrDataPointer::Node(n) => {
            assert_eq!(n.data_pointer, 7);
            assert!(matches!(n.left.as_ref(), NodeOrDataPointer::Data((5, 7))));
            assert!(matches!(n.right.as_ref(), NodeOrDataPointer::Data((8, 9))));
        }
        NodeOrDataPointer::Data(_) => panic!("four records are split"),
    }
}

#[test]
fn small_tree_is_one_bucket() {
    let tree = KDTree::from_vec(vec![Data::new('a', vec![5, 5]), Data::new('b', vec![1, 1])], 1).unwrap();
    assert_eq!(tree.get_root_node().err(), Some(ClosestError::RootNodeIsData));
    assert_eq!(tree.dimension(), 2);
    let found = tree
        .get_nearest_neighbors(&Point::new(vec![0, 0]), 5, &SquaredEuclideanDistance::default())
        .unwrap();
    assert_eq!(found.len(), 2);
    assert_eq!((found[0].data, found[0].distance), ('b', 2));
    assert_eq!((found[1].data, found[1].distance), ('a', 50));
}

#[test]
fn records_without_coordinates_are_one_bucket() {
    let data: Vec<Data<u8>> = (0..10).map(|i| Data::new(i, vec![])).collect();
    let tree = KDTree::from_vec(data, 1).unwrap();
    assert_eq!(tree.dimension(), 0);
    assert!(tree.get_root_node().is_err());
    let found = tree
        .get_nearest_neighbors(&Point::new(vec![]), 3, &SquaredEuclideanDistance::default())
        .unwrap();
    assert_eq!(found.iter().map(|n| n.distance).collect::<Vec<u128>>(), vec![0, 0, 0]);
}

#[test]
fn differing_dimensions_are_refused() {
    let data = vec![Data::new(1, vec![1, 2]), Data::new(2, vec![1, 2]), Data::new(3, vec![1])];
    assert_eq!(KDTree::from_vec(data, 1).err(), Some(ClosestError::DimensionMismatch));
}

#[test]
fn tree_from_iterator() {
    let tree = KDTree::from_iter(colors().into_iter(), 1).unwrap();
    assert_eq!(tree.len(), 9);
    let found = tree
        .get_nearest_neighbors(&Point::new(vec![0, 0, 250]), 1, &SquaredEuclideanDistance::default())
        .unwrap();
    assert_eq!(found[0].data, "blue");
    assert_eq!(found[0].distance, 25);
    let none: Vec<Data<u8>> = Vec::new();
    assert_eq!(KDTree::from_iter(none.into_iter(), 1).err(), Some(ClosestError::EmptyInput));
}

#[test]
fn equal_distances_are_all_counted() {
    let data: Vec<Data<usize>> = (0..40).map(|i| Data::new(i, vec![(i % 4) as i32, 0])).collect();
    let tree = KDTree::from_vec(data, 3).unwrap();
    let found = tree
        .get_nearest_neighbors(&Point::new(vec![0, 0]), 25, &SquaredEuclideanDistance::default())
        .unwrap();
    let mut expected = vec![0u128; 10];
    expected.extend(vec![1u128; 10]);
    expected.extend(vec![4u128; 5]);
    assert_eq!(found.iter().map(|n| n.distance).collect::<Vec<u128>>(), expected);
    let mut names: Vec<usize> = found.iter().map(|n| n.data).collect();
    names.sort();
    names.dedup();
    assert_eq!(names.len(), 25);
}

#[test]
fn least_coordinate_sorts_first() {
    let data = vec![
        Data::new("far", vec![i32::MAX]),
        Data::new("mid", vec![0]),
        Data::new("least", vec![i32::MIN]),
        Data::new("near", vec![7]),
    ];
    let tree = KDTree::from_vec(data, 1).unwrap();
    let found = tree
        .get_nearest_neighbors(&Point::new(vec![i32::MIN]), 4, &SquaredEuclideanDistance::default())
        .unwrap();
    let names: Vec<&str> = found.iter().map(|n| n.data).collect();
    assert_eq!(names, vec!["least", "mid", "near", "far"]);
    assert_eq!(found[3].distance, 18446744065119617025);
}

/// The largest squared gap on any axis.
struct SquaredChebyshev;

impl DistanceMetric for SquaredChebyshev {
    fn distance(&self, one: &Point, other: &Point) -> u128 {
        one.coordinates
            .iter()
            .zip(&other.coordinates)
            .map(|(a, b)| ((*a as i128 - *b as i128).pow(2)) as u128)
            .max()
            .unwrap_or(0)
    }
}

#[test]
fn another_metric_can_be_used() {
    let points = cloud(31, 90, 3, 31);
    let tree = KDTree::from_vec(records(&points), 3).unwrap();
    let query = vec![1, 2, 3];
    let metric = SquaredChebyshev;
    let found = tree.get_nearest_neighbors(&Point::new(query.clone()), 6, &metric).unwrap();
    let mut all: Vec<u128> =
        points.iter().map(|(_, p)| metric.distance(&Point::new(p.clone()), &Point::new(query.clone()))).collect();
    all.sort();
    assert_eq!(distances(&found), all[..6].to_vec());
}
