use search::engine::heap::FixedMinHeap;

// Scores are ranked by their bits: for positive floats the order is the same.
fn key(score: f64) -> u64 {
    score.to_bits()
}

#[test]
fn heap_test_top_k() {
    let mut selector = FixedMinHeap::new(2);

    selector.push(2, key(0.4));
    selector.push(3, key(0.3));
    selector.push(1, key(0.5));
    selector.push(4, key(0.2));

    assert_eq!(
        selector.get_sorted_id_priority_pairs(),
        [(1, key(0.5)), (2, key(0.4))]
    );
}

#[test]
fn heap_test_top_less_than_k() {
    let mut selector = FixedMinHeap::new(3);

    selector.push(1, key(0.5));
    selector.push(2, key(0.4));

    assert_eq!(
        selector.get_sorted_id_priority_pairs(),
        [(1, key(0.5)), (2, key(0.4))]
    );
}

#[test]
fn document_selector_test_top_k() {
    let mut selector = FixedMinHeap::new(2);

    selector.push(2, key(0.4));
    selector.push(3, key(0.3));
    selector.push(1, key(0.5));
    selector.push(4, key(0.2));

    assert_eq!(
        selector
            .get_sorted_id_priority_pairs()
            .iter()
            .map(|e| e.0)
            .collect::<Vec<_>>(),
        [1, 2]
    );
}

#[test]
fn document_selector_test_top_less_than_k() {
    let mut selector = FixedMinHeap::new(3);

    selector.push(1, key(0.5));
    selector.push(2, key(0.4));

    assert_eq!(
        selector
            .get_sorted_id_priority_pairs()
            .iter()
            .map(|e| e.0)
            .collect::<Vec<_>>(),
        [1, 2]
    );
}

#[test]
fn heap_keeps_the_highest_of_many() {
    let mut selector = FixedMinHeap::new(3);
    for (id, p) in [(0, 5u64), (1, 9), (2, 1), (3, 9), (4, 7), (5, 0), (6, 8)] {
        selector.push(id, p);
    }
    // equal priorities come out in the order in which they were pushed
    assert_eq!(selector.get_sorted_id_priority_pairs(), [(1, 9), (3, 9), (6, 8)]);
    // drained
    assert_eq!(selector.get_sorted_id_priority_pairs(), []);
}

#[test]
fn heap_of_capacity_zero_keeps_nothing() {
    let mut selector = FixedMinHeap::new(0);
    selector.push(1, 10);
    selector.push(2, 20);
    assert_eq!(selector.get_sorted_id_priority_pairs(), []);
}
