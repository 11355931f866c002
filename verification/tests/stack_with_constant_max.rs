use algorithms::stack_with_constant_max::StackWithConstantMax;

#[test]
fn test_stack_with_constant_max() {
    let mut stack = StackWithConstantMax::new();
    assert!(stack.is_empty());

    stack.push(3);
    assert_eq!(stack.max(), Some(3));

    stack.push(5);
    assert_eq!(stack.max(), Some(5));

    stack.push(2);
    assert_eq!(stack.max(), Some(5));

    stack.push(1);
    assert_eq!(stack.max(), Some(5));

    stack.pop();
    assert_eq!(stack.max(), Some(5));

    stack.pop();
    assert_eq!(stack.max(), Some(5));

    stack.pop();
    assert_eq!(stack.max(), Some(3));

    stack.pop();
    assert_eq!(stack.max(), None);

    assert!(stack.is_empty());
}

#[test]
fn stack_pops_in_reverse_order() {
    let mut stack = StackWithConstantMax::new();
    for value in [4, 8, 1] {
        stack.push(value);
    }
    assert!(!stack.is_empty());
    assert_eq!(stack.pop(), Some(1));
    assert_eq!(stack.pop(), Some(8));
    assert_eq!(stack.pop(), Some(4));
    assert_eq!(stack.pop(), None);
    assert_eq!(stack.pop(), None);
    assert!(stack.is_empty());
}

#[test]
fn default_stack_is_empty() {
    let mut stack: StackWithConstantMax<u8> = Default::default();
    assert!(stack.is_empty());
    assert_eq!(stack.max(), None);
    stack.push(9);
    assert_eq!(stack.max(), Some(9));
}

#[test]
fn stack_max_is_the_latest_of_tied_elements() {
    let mut stack = StackWithConstantMax::new();
    stack.push((5, ()));
    stack.push((5, ()));
    stack.push((2, ()));
    assert_eq!(stack.max(), Some((5, ())));
    stack.push((7, ()));
    assert_eq!(stack.max(), Some((7, ())));
}
