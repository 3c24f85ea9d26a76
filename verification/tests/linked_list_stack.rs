use algs::algorithms::linked_list_stack::LinkedStack;

#[test]
fn linked_list_stack_interface_operations_should_work_as_expected() {
    let mut stack = LinkedStack::<u32>::new();

    assert!(stack.is_empty());
    assert!(stack.pop() == None);

    stack.push(0);

    assert!(stack.pop() == Some(0));

    stack.push(1);
    stack.push(2);
    stack.push(3);

    assert!(stack.pop() == Some(3));
    assert!(stack.pop() == Some(2));
    assert!(stack.pop() == Some(1));
    assert!(stack.pop() == None);
    assert!(stack.is_empty());
}

#[test]
fn linked_list_stack_into_iter_should_consume_the_stack() {
    let mut stack = LinkedStack::<u32>::new();

    for i in 0..25 {
        stack.push(i);
    }

    let mut k = 25;

    let mut it = stack.into_iter();
    while let Some(v) = it.next() {
        k -= 1;

        assert!(v == k);
    }

    assert!(k == 0);
}

#[test]
fn linked_list_stack_iter_should_traverse_the_stack_without_consuming_it() {
    let mut stack = LinkedStack::<u32>::new();

    for i in 0..25 {
        stack.push(i);
    }

    let mut k = 25;

    let mut it = stack.iter();
    while let Some(v) = it.next() {
        k -= 1;

        assert!(*v == k);
    }

    k = 25;

    assert!(!stack.is_empty());

    let mut it = stack.iter();
    while let Some(v) = it.next() {
        k -= 1;

        assert!(*v == k);
    }

    assert!(k == 0);
}

#[test]
fn linked_list_stack_iter_should_traverse_the_stack_while_mutating_it() {
    let mut stack = LinkedStack::<u32>::new();

    for i in 1..26 {
        stack.push(i);
    }

    let mut it = stack.iter_mut();
    while let Some(v) = it.next() {
        *v = 0;
    }

    let mut seen = 0;
    let mut it = stack.iter();
    while let Some(v) = it.next() {
        assert!(*v == 0);
        seen += 1;
    }

    assert!(seen == 25);
}

#[test]
fn a_long_stack_is_dropped_without_deep_recursion() {
    let mut stack = LinkedStack::<u64>::new();

    for i in 0..2_000_000 {
        stack.push(i);
    }

    assert!(stack.pop() == Some(1_999_999));
}
