use algs::algorithms::linked_list_queue::LinkedQueue;

#[test]
fn linked_list_queue_interface_operations_should_work_as_expected() {
    let mut queue = LinkedQueue::new();

    assert!(queue.is_empty());
    assert!(queue.dequeue() == None);

    queue.enqueue(0);

    assert!(queue.dequeue() == Some(0));

    queue.enqueue(1);
    queue.enqueue(2);
    queue.enqueue(3);
    queue.enqueue(4);

    assert!(queue.dequeue() == Some(1));
    assert!(queue.dequeue() == Some(2));
    assert!(queue.dequeue() == Some(3));
    assert!(queue.dequeue() == Some(4));

    assert!(queue.is_empty());

    queue.enqueue(1);
    queue.dequeue();
    queue.enqueue(2);
    queue.dequeue();

    assert!(queue.is_empty());

    for i in 0..50 {
        queue.enqueue(i);
        queue.dequeue();
    }

    assert!(queue.is_empty());

    for i in 0..1000 {
        queue.enqueue(i);
    }

    for _ in 0..1000 {
        queue.dequeue();
    }

    assert!(queue.is_empty());

    let mut queue = LinkedQueue::new();

    for i in 0..100 {
        queue.enqueue(i);
    }

    for i in 0..100 {
        assert!(queue.dequeue() == Some(i));
    }

    for i in 0..50 {
        queue.enqueue(i);
        queue.dequeue();
    }

    for i in 0..1000 {
        queue.enqueue(i);
    }

    for i in 0..1000 {
        assert!(queue.dequeue() == Some(i));
    }

    assert!(queue.is_empty());
}

#[test]
fn into_iter_should_consume_the_queue() {
    let mut queue = LinkedQueue::new();

    for i in 0..25 {
        queue.enqueue(i);
    }

    let mut k = 0;

    let mut it = queue.into_iter();
    while let Some(v) = it.next() {
        assert!(v == k);

        k += 1;
    }

    assert!(k == 25);
}

#[test]
fn iter_should_traverse_the_queue_without_consuming_it() {
    let mut queue = LinkedQueue::new();

    for i in 0..25 {
        queue.enqueue(i);
    }

    let mut k = 0;

    let mut it = queue.iter();
    while let Some(v) = it.next() {
        assert!(*v == k);

        k += 1;
    }

    for _ in 0..25 {
        queue.dequeue();
    }

    assert!(queue.is_empty());

    for i in 0..25 {
        queue.enqueue(i);
    }

    k = 0;

    let mut it = queue.iter();
    while let Some(v) = it.next() {
        assert!(*v == k);

        k += 1;
    }

    assert!(k == 25);
}

#[test]
fn iter_should_traverse_the_queue_while_mutating_it() {
    let mut queue = LinkedQueue::new();

    for i in 0..25 {
        queue.enqueue(i);
    }

    let mut it = queue.iter_mut();
    while let Some(v) = it.next() {
        *v = 0;
    }

    let mut seen = 0;
    let mut it = queue.iter();
    while let Some(v) = it.next() {
        assert!(*v == 0);
        seen += 1;
    }

    assert!(seen == 25);
}

#[test]
fn a_long_queue_is_dropped_without_deep_recursion() {
    let mut queue = LinkedQueue::<u64>::new();

    for i in 0..2_000_000 {
        queue.enqueue(i);
    }
    for i in 0..1_000_000 {
        assert!(queue.dequeue() == Some(i));
    }
    for i in 0..1_000_000 {
        queue.enqueue(i);
    }

    assert!(queue.dequeue() == Some(1_000_000));
}

#[test]
fn a_queue_is_walked_in_the_order_of_arrival_whatever_has_left_it() {
    let mut queue = LinkedQueue::<u32>::new();

    for i in 0..10 {
        queue.enqueue(i);
    }
    assert!(queue.dequeue() == Some(0));
    for i in 10..15 {
        queue.enqueue(i);
    }

    let mut k = 1;
    let mut it = queue.iter();
    while let Some(v) = it.next() {
        assert!(*v == k);
        k += 1;
    }
    assert!(k == 15);

    let mut k = 1;
    let mut it = queue.iter_mut();
    while let Some(v) = it.next() {
        assert!(*v == k);
        *v += 100;
        k += 1;
    }
    assert!(k == 15);

    let mut k = 101;
    let mut it = queue.into_iter();
    while let Some(v) = it.next() {
        assert!(v == k);
        k += 1;
    }
    assert!(k == 115);
}
