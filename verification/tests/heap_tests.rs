use std::cmp::Reverse;

use binary_heap::BinaryHeap;

#[test]
fn push_test() {
    let mut bob = BinaryHeap::<u32>::with_capacity(5);
    bob.push(5);
    bob.push(11);
    bob.push(3);
    bob.push(7);
    bob.push(1);
    bob.push(7);

    assert_eq!(bob.pop(), Some(1));
    assert_eq!(bob.pop(), Some(3));
    bob.push(2);
    assert_eq!(bob.pop(), Some(2));
    assert_eq!(bob.pop(), Some(5));
    assert_eq!(bob.pop(), Some(7));
    assert_eq!(bob.pop(), Some(7));
    assert_eq!(bob.pop(), Some(11));
    assert_eq!(bob.pop(), None);
}

#[test]
fn from_test() {
    let steve = vec![8, 4, 5, 2, 2, 9, 22];
    let mut heap_steve = BinaryHeap::<usize>::from(steve);

    assert_eq!(heap_steve.pop(), Some(2));
    assert_eq!(heap_steve.pop(), Some(2));
    assert_eq!(heap_steve.pop(), Some(4));
    assert_eq!(heap_steve.pop(), Some(5));
    assert_eq!(heap_steve.pop(), Some(8));
    assert_eq!(heap_steve.pop(), Some(9));
    assert_eq!(heap_steve.pop(), Some(22));

    let mut heap_john: BinaryHeap<usize> = BinaryHeap::from(vec![2, 3, 1]);

    assert_eq!(heap_john.pop(), Some(1));
    assert_eq!(heap_john.pop(), Some(2));
    assert_eq!(heap_john.pop(), Some(3));
}

#[test]
fn reverse_test() {
    let joe = vec![
        Reverse(8),
        Reverse(2),
        Reverse(4),
        Reverse(4),
        Reverse(5),
        Reverse(9),
    ];

    let mut heap_joe = BinaryHeap::<Reverse<usize>>::from(joe);

    assert_eq!(heap_joe.pop(), Some(Reverse(9)));
    assert_eq!(heap_joe.pop(), Some(Reverse(8)));
    assert_eq!(heap_joe.pop(), Some(Reverse(5)));
    assert_eq!(heap_joe.pop(), Some(Reverse(4)));
    assert_eq!(heap_joe.pop(), Some(Reverse(4)));
    assert_eq!(heap_joe.pop(), Some(Reverse(2)));
}

#[test]
fn push_then_pop_sorted_test() {
    let mut heap = BinaryHeap::<u32>::new();
    for value in [5, 11, 3, 7, 1, 7] {
        heap.push(value);
    }
    for expected in [1, 3, 5, 7, 7, 11] {
        assert_eq!(heap.pop(), Some(expected));
    }
    assert_eq!(heap.pop(), None);
}

#[test]
fn empty_pop_test() {
    let mut fresh = BinaryHeap::<i64>::new();
    assert_eq!(fresh.pop(), None);
    assert_eq!(fresh.pop(), None);

    let mut reserved = BinaryHeap::<i64>::with_capacity(16);
    assert_eq!(reserved.pop(), None);

    // the failed pops must not have corrupted anything
    fresh.push(-4);
    fresh.push(9);
    assert_eq!(fresh.pop(), Some(-4));
    assert_eq!(fresh.pop(), Some(9));
    assert_eq!(fresh.pop(), None);
}

#[test]
fn single_element_test() {
    let mut heap = BinaryHeap::<u8>::from(vec![42]);
    assert_eq!(heap.pop(), Some(42));
    assert_eq!(heap.pop(), None);
}

#[test]
fn interleaved_test() {
    let mut heap = BinaryHeap::<u32>::new();
    heap.push(5);
    heap.push(11);
    heap.push(3);
    assert_eq!(heap.pop(), Some(3));
    heap.push(1);
    assert_eq!(heap.pop(), Some(1));
    assert_eq!(heap.pop(), Some(5));
    assert_eq!(heap.pop(), Some(11));
    assert_eq!(heap.pop(), None);
}

#[test]
fn size_accounting_test() {
    let mut heap = BinaryHeap::<u32>::new();
    for value in [9, 1, 8, 2, 7] {
        heap.push(value);
    }
    assert!(heap.pop().is_some());
    assert!(heap.pop().is_some());
    // five pushes and two successful pops leave exactly three elements
    let mut remaining = 0;
    while heap.pop().is_some() {
        remaining += 1;
    }
    assert_eq!(remaining, 3);
}

#[test]
fn from_empty_test() {
    let mut heap = BinaryHeap::<u32>::from(Vec::new());
    assert_eq!(heap.pop(), None);
}

#[test]
fn from_sorted_inputs_test() {
    let mut ascending = BinaryHeap::<u32>::from(vec![1, 2, 3, 4, 5]);
    for expected in [1, 2, 3, 4, 5] {
        assert_eq!(ascending.pop(), Some(expected));
    }
    assert_eq!(ascending.pop(), None);

    let mut descending = BinaryHeap::<u32>::from(vec![5, 4, 3, 2, 1]);
    for expected in [1, 2, 3, 4, 5] {
        assert_eq!(descending.pop(), Some(expected));
    }
    assert_eq!(descending.pop(), None);

    let mut all_equal = BinaryHeap::<u32>::from(vec![6, 6, 6, 6]);
    for _ in 0..4 {
        assert_eq!(all_equal.pop(), Some(6));
    }
    assert_eq!(all_equal.pop(), None);
}

#[test]
fn multiset_preserved_test() {
    // duplicates come out exactly as often as they went in
    let mut heap = BinaryHeap::<u32>::new();
    for value in [3, 1, 3, 2, 3, 1] {
        heap.push(value);
    }
    let mut drained = Vec::new();
    while let Some(value) = heap.pop() {
        drained.push(value);
    }
    let mut expected = vec![3, 1, 3, 2, 3, 1];
    expected.sort();
    assert_eq!(drained, expected);
}
