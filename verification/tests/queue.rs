use heapcore::queue::Queue;

#[test]
fn test_enqueue() {
    let mut queue = Queue::new(2);
    assert!(queue.enqueue("a"));
    assert!(queue.enqueue("b"));
    assert_eq!(queue.size(), 2);
    assert_eq!(queue.dequeue().unwrap(), "a");
    assert_eq!(queue.dequeue().unwrap(), "b");
}

#[test]
fn test_dequeue() {
    let mut queue = Queue::new(2);
    queue.enqueue(0);
    queue.enqueue(1);
    assert_eq!(queue.size(), 2);
    assert_eq!(queue.dequeue().unwrap(), 0);
    assert_eq!(queue.dequeue().unwrap(), 1);
    assert!(queue.dequeue().is_none());
}

#[test]
fn test_enqueue_rejects_when_full() {
    let mut queue = Queue::new(2);
    assert!(!queue.is_full());
    assert!(queue.enqueue(10));
    assert!(queue.enqueue(20));
    assert!(queue.is_full());
    // A full queue rejects the item and stays unchanged.
    assert!(!queue.enqueue(30));
    assert_eq!(queue.size(), 2);
    assert_eq!(queue.dequeue(), Some(10));
    assert!(!queue.is_full());
    // Space freed by dequeue can be used again, in FIFO order.
    assert!(queue.enqueue(30));
    assert_eq!(queue.dequeue(), Some(20));
    assert_eq!(queue.dequeue(), Some(30));
    assert_eq!(queue.dequeue(), None);
}

#[test]
fn test_zero_capacity_queue() {
    let mut queue: Queue<u8> = Queue::new(0);
    assert!(queue.is_full());
    assert!(!queue.enqueue(1));
    assert_eq!(queue.size(), 0);
    assert_eq!(queue.dequeue(), None);
}
