use heapcore::stack::Stack;

#[test]
fn test_put() {
    let mut stack = Stack::new();
    stack.put(1);
    stack.put(2);
    assert_eq!(stack.top().unwrap().clone(), 2);
    assert_eq!(stack.size(), 2);
}

#[test]
fn test_pop() {
    let mut stack = Stack::new();
    // Pop from empty stack
    assert!(stack.pop().is_none());
    stack.put(0);
    stack.put(1);
    assert_eq!(stack.size(), 2);
    assert_eq!(stack.pop().unwrap(), 1);
    assert_eq!(stack.pop().unwrap(), 0);
    assert!(stack.pop().is_none());
}

#[test]
fn test_top() {
    let mut stack = Stack::new();

    assert!(stack.top().is_none());
    stack.put(0);
    stack.put(1);
    assert_eq!(stack.top().unwrap().clone(), 1);
    assert_eq!(stack.top().unwrap().clone(), 1);
    assert_eq!(stack.size(), 2);
}

#[test]
fn test_stack_lifo_order() {
    let mut stack = Stack::new();
    stack.put("a");
    stack.put("b");
    stack.put("c");
    assert_eq!(stack.size(), 3);
    assert_eq!(stack.pop(), Some("c"));
    assert_eq!(stack.pop(), Some("b"));
    assert_eq!(stack.pop(), Some("a"));
    assert_eq!(stack.pop(), None);
    assert_eq!(stack.size(), 0);
}
