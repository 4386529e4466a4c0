use hash_hack_dbms::bitmap::SeenKeys;
use hash_hack_dbms::heap::{sort_records, MinHeap};

#[test]
fn heap_hands_out_the_smallest_first() {
    let mut heap = MinHeap::with_capacity(4);
    heap.push((2, 3));
    heap.push((1, 1));
    heap.push((4, 16));
    heap.push((2, 1));
    assert_eq!(heap.len(), 4);
    assert_eq!(heap.pop(), Some((1, 1)));
    assert_eq!(heap.pop(), Some((2, 1)));
    assert_eq!(heap.pop(), Some((2, 3)));
    assert_eq!(heap.pop(), Some((4, 16)));
    assert_eq!(heap.pop(), None);
    assert_eq!(heap.len(), 0);
}

#[test]
fn test_container() {
    let mut heap = MinHeap::with_capacity(0);

    heap.push((2, 2));
    heap.push((2, 2));
    heap.push((2, 2));

    assert_eq!(heap.pop(), Some((2, 2)));
    assert_eq!(heap.pop(), Some((2, 2)));
    assert_eq!(heap.pop(), Some((2, 2)));
    assert_eq!(heap.pop(), None);

    let mut seen = SeenKeys::new();

    for key in 0..64 {
        assert!(!seen.contains(key));
    }
    assert!(!seen.observe(0));
    assert!(seen.contains(0));
}

#[test]
fn heap_drains_in_order() {
    let mut heap = MinHeap::with_capacity(8);
    for r in [(9u32, 0u32), (3, 3), (7, 1), (3, 2), (0, 9), (u32::MAX, 0), (7, 0)] {
        heap.push(r);
    }
    assert_eq!(
        heap.into_sorted_vec(),
        vec![(0, 9), (3, 2), (3, 3), (7, 0), (7, 1), (9, 0), (u32::MAX, 0)]
    );
}

#[test]
fn sort_agrees_with_the_order_of_pairs() {
    let mut records: Vec<(u32, u32)> = Vec::new();
    let mut x: u32 = 12345;
    for _ in 0..2000 {
        x = x.wrapping_mul(1_103_515_245).wrapping_add(12345);
        let key = (x >> 16) % 50;
        x = x.wrapping_mul(1_103_515_245).wrapping_add(12345);
        records.push((key, x >> 8));
    }
    let mut expected = records.clone();
    expected.sort();
    assert_eq!(sort_records(&records), expected);
    assert_eq!(sort_records(&vec![]), vec![]);
}
