use closest::heap::{sort_range, swap_items};
use closest::{NeighborHeap, RawNeighbor};

fn raw(distances: &[u128]) -> Vec<RawNeighbor> {
    distances.iter().enumerate().map(|(i, d)| RawNeighbor::new(*d, i)).collect()
}

fn pairs(items: &[RawNeighbor]) -> Vec<(u128, usize)> {
    items.iter().map(|c| (c.distance, c.data_pointer)).collect()
}

#[test]
fn swap_exchanges_two_items() {
    let mut v = vec![10, 20, 30, 40, 50];
    swap_items(&mut v, 1, 3);
    assert_eq!(v, vec![10, 40, 30, 20, 50]);
    swap_items(&mut v, 4, 0);
    assert_eq!(v, vec![50, 40, 30, 20, 10]);
    swap_items(&mut v, 0, 4);
    assert_eq!(v, vec![10, 40, 30, 20, 50]);
    swap_items(&mut v, 2, 2);
    assert_eq!(v, vec![10, 40, 30, 20, 50]);
    swap_items(&mut v, 4, 4);
    assert_eq!(v, vec![10, 40, 30, 20, 50]);
    swap_items(&mut v, 3, 4);
    assert_eq!(v, vec![10, 40, 30, 50, 20]);
}

#[test]
fn sort_orders_the_stretch_only() {
    let mut v = raw(&[9, 8, 7, 6, 5, 4, 3, 2, 1, 0]);
    sort_range(&mut v, 2, 8, 0);
    assert_eq!(
        v.iter().map(|c| c.distance).collect::<Vec<u128>>(),
        vec![9, 8, 2, 3, 4, 5, 6, 7, 1, 0]
    );
    sort_range(&mut v, 0, 10, 0);
    assert_eq!(
        pairs(&v),
        vec![(0, 9), (1, 8), (2, 7), (3, 6), (4, 5), (5, 4), (6, 3), (7, 2), (8, 1), (9, 0)]
    );
    sort_range(&mut v, 4, 4, 0);
    sort_range(&mut v, 10, 10, 0);
    assert_eq!(v.len(), 10);
}

#[test]
fn sort_agrees_with_the_standard_sort() {
    let mut seed: u64 = 99;
    for len in 0..70usize {
        let mut distances = Vec::new();
        for _ in 0..len {
            seed = seed.wrapping_mul(6364136223846793005).wrapping_add(1442695040888963407);
            distances.push((seed >> 40) as u128 % 17);
        }
        let mut v = raw(&distances);
        sort_range(&mut v, 0, len, 0);
        distances.sort();
        assert_eq!(v.iter().map(|c| c.distance).collect::<Vec<u128>>(), distances);
        let mut slots: Vec<usize> = v.iter().map(|c| c.data_pointer).collect();
        slots.sort();
        assert_eq!(slots, (0..len).collect::<Vec<usize>>());
    }
}

#[test]
fn heap_gives_the_worst_first() {
    let mut heap = NeighborHeap::new(10);
    assert_eq!(heap.len(), 0);
    assert_eq!(heap.limit(), 10);
    assert!(heap.peek().is_none());
    assert!(heap.pop().is_none());
    for c in raw(&[5, 1, 9, 3, 7, 2, 8]) {
        heap.push(c);
    }
    assert_eq!(heap.len(), 7);
    assert_eq!(heap.peek().map(|c| (c.distance, c.data_pointer)), Some((9, 2)));
    let mut out = Vec::new();
    while let Some(c) = heap.pop() {
        out.push(c.distance);
    }
    assert_eq!(out, vec![9, 8, 7, 5, 3, 2, 1]);
    assert_eq!(heap.len(), 0);
}

#[test]
fn offer_keeps_the_nearest() {
    let mut heap = NeighborHeap::new(3);
    let offers = raw(&[50, 40, 60, 60, 10, 40, 45, 5]);
    let mut outcomes = Vec::new();
    for c in &offers {
        let (kept, left) = heap.offer(*c);
        outcomes.push((kept, left.map(|l| l.distance)));
    }
    assert_eq!(
        outcomes,
        vec![
            (true, None),
            (true, None),
            (true, None),
            (false, None),
            (true, Some(60)),
            (true, Some(50)),
            (false, None),
            (true, Some(40)),
        ]
    );
    assert_eq!(heap.len(), 3);
    let sorted = heap.into_sorted_vec();
    assert_eq!(sorted.iter().map(|c| c.distance).collect::<Vec<u128>>(), vec![5, 10, 40]);
    assert_eq!(sorted[0].data_pointer, 7);
    assert_eq!(sorted[1].data_pointer, 4);
}

#[test]
fn heap_without_room_keeps_nothing() {
    let mut heap = NeighborHeap::new(0);
    assert_eq!(heap.offer(RawNeighbor::new(1, 0)).0, false);
    assert_eq!(heap.len(), 0);
    assert!(heap.into_sorted_vec().is_empty());
}
