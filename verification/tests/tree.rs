use closest::{
    add, ClosestError, Data, KDTree, NodeOrDataPointer, Point, SquaredEuclideanDistance,
};

/// Degrees, as grid units of a ten-thousandth of a degree.
fn grid(degrees: &[f64]) -> Vec<i32> {
    degrees.iter().map(|d| (d * 10000.0).round() as i32).collect()
}

fn cities() -> Vec<Data<&'static str>> {
    vec![
        Data::new("Boston", grid(&[42.358, -71.064])),
        Data::new("Troy", grid(&[42.732, -73.693])),
        Data::new("New York", grid(&[40.664, -73.939])),
        Data::new("Miami", grid(&[25.788, -80.224])),
        Data::new("London", grid(&[51.507, -0.128])),
        Data::new("Paris", grid(&[48.857, 2.351])),
        Data::new("Vienna", grid(&[48.208, 16.373])),
        Data::new("Rome", grid(&[41.900, 12.500])),
        Data::new("Beijing", grid(&[39.914, 116.392])),
        Data::new("Hong Kong", grid(&[22.278, 114.159])),
        Data::new("Seoul", grid(&[37.567, 126.978])),
        Data::new("Tokyo", grid(&[35.690, 139.692])),
    ]
}

#[test]
fn it_works() {
    let result = add(2, 2);
    assert_eq!(result, 4);
}

#[test]
fn tree_build() {
    // This is a bad example, because this is lat lng, and so our distance
    // measures are not taking the curve of the earth into account, and
    // rather simplifying it to a 2-D plane.
    let data = vec![
        Data::new("Boston", grid(&[42.358, -71.064])),
        Data::new("Troy", grid(&[42.732, -73.693])),
        Data::new("New York", grid(&[40.664, -73.939])),
        Data::new("Miami", grid(&[25.788, -80.224])),
        Data::new("London", grid(&[51.507, -0.128])),
        Data::new("Paris", grid(&[48.857, 2.351])),
        Data::new("Vienna", grid(&[48.208, 16.373])),
        Data::new("Rome", grid(&[41.900, 12.500])),
        Data::new("Beijing", grid(&[39.914, 116.392])),
        Data::new("Hong Kong", grid(&[22.278, 114.159])),
        Data::new("Seoul", grid(&[37.567, 126.978])),
        Data::new("Tokyo", grid(&[35.690, 139.692])),
    ];
    let data_len = data.len();
    let tree = KDTree::from_vec(data, 1).unwrap();
    let mut stack = vec![tree.get_root_node().unwrap()];
    let mut found_data = vec![
        tree.get_root_node().unwrap().data_pointer
            ..(tree.get_root_node().unwrap().data_pointer + 1),
    ];
    while let Some(node) = stack.pop() {
        match node.left.as_ref() {
            NodeOrDataPointer::Data((start, stop)) => found_data.push(*start..*stop),
            NodeOrDataPointer::Node(n) => {
                stack.push(&n);
                found_data.push(n.data_pointer..(n.data_pointer + 1));
            }
        }
        match node.right.as_ref() {
            NodeOrDataPointer::Data((start, stop)) => found_data.push(*start..*stop),
            NodeOrDataPointer::Node(n) => {
                stack.push(&n);
                found_data.push(n.data_pointer..(n.data_pointer + 1));
            }
        }
    }
    let mut data_idx = Vec::new();
    for g in found_data {
        for i in g {
            data_idx.push(i);
        }
    }
    data_idx.sort();
    assert_eq!(data_idx.len(), data_len);
    let expected_idx: Vec<usize> = (0..tree.len()).collect();
    assert_eq!(expected_idx, data_idx);

    // Get nearest neighbor
    let point = Point::new(grid(&[43.6766, 4.6278])); // Arles
    let nearest = tree
        .get_nearest_neighbors(&point, 1, &SquaredEuclideanDistance::default())
        .unwrap();
    assert_eq!(nearest[0].data, "Paris");
}

#[test]
fn empty_input_is_refused() {
    let none: Vec<Data<u8>> = Vec::new();
    assert_eq!(KDTree::from_vec(none, 1).err(), Some(ClosestError::EmptyInput));
}

#[test]
fn query_of_other_dimension_is_refused() {
    let tree = KDTree::from_vec(cities(), 1).unwrap();
    let point = Point::new(vec![1, 2, 3]);
    let found = tree.get_nearest_neighbors(&point, 1, &SquaredEuclideanDistance::default());
    assert_eq!(found.err(), Some(ClosestError::DimensionMismatch));
}
