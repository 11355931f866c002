use algorithms::two_stack_queue::TwoStackQueue;

#[test]
fn test_two_stack_queue() {
    let mut queue = TwoStackQueue::new();
    queue.push(1);
    queue.push(2);
    assert_eq!(queue.max(), Some(2));
    queue.push(3);
    assert_eq!(queue.max(), Some(3));

    assert_eq!(queue.pop(), Some(1));
    assert_eq!(queue.pop(), Some(2));
    queue.push(4);
    assert_eq!(queue.max(), Some(4));
    assert_eq!(queue.pop(), Some(3));
    assert_eq!(queue.max(), Some(4));
    assert_eq!(queue.pop(), Some(4));
    assert_eq!(queue.max(), None);
    assert_eq!(queue.pop(), None);
}

#[test]
fn queue_keeps_the_order_of_arrival() {
    let mut queue = TwoStackQueue::new();
    for value in 0..5 {
        queue.push(value);
    }
    assert_eq!(queue.pop(), Some(0));
    assert_eq!(queue.pop(), Some(1));
    for value in 5..8 {
        queue.push(value);
    }
    for expected in 2..8 {
        assert_eq!(queue.pop(), Some(expected));
    }
    assert_eq!(queue.pop(), None);
}

#[test]
fn queue_max_looks_at_both_ends() {
    let mut queue = TwoStackQueue::new();
    queue.push(9);
    queue.push(1);
    queue.push(2);
    assert_eq!(queue.pop(), Some(9));
    assert_eq!(queue.max(), Some(2));
    queue.push(7);
    assert_eq!(queue.max(), Some(7));
    assert_eq!(queue.pop(), Some(1));
    assert_eq!(queue.pop(), Some(2));
    assert_eq!(queue.max(), Some(7));
}

#[test]
fn default_queue_is_empty() {
    let mut queue: TwoStackQueue<i64> = Default::default();
    assert_eq!(queue.max(), None);
    assert_eq!(queue.pop(), None);
    queue.push(-3);
    assert_eq!(queue.max(), Some(-3));
    assert_eq!(queue.pop(), Some(-3));
}
