use algs::algorithms::priority_queue::PriorityQueue;

#[test]
fn interface_operations_for_max_priority_queue_should_work_as_expected() {
    let mut queue = PriorityQueue::<isize>::new(true);

    assert!(queue.is_empty());

    for v in 0..100 {
        queue.insert(v);
    }

    for v in 0..100 {
        assert!(queue.delete() == Some(99 - v));
    }

    assert!(queue.is_empty());

    queue.insert(1);
    queue.insert(10);
    queue.insert(20);
    queue.insert(5);
    queue.insert(-10);
    queue.insert(-30);
    queue.insert(-2);
    queue.insert(1);
    queue.insert(5);

    assert!(queue.delete().unwrap() == 20);
    assert!(queue.delete().unwrap() == 10);
    assert!(queue.delete().unwrap() == 5);
    assert!(queue.delete().unwrap() == 5);
    assert!(queue.delete().unwrap() == 1);
    assert!(queue.delete().unwrap() == 1);
    assert!(queue.delete().unwrap() == -2);
    assert!(queue.delete().unwrap() == -10);
    assert!(queue.delete().unwrap() == -30);
    assert!(queue.is_empty());
}

#[test]
fn interface_operations_for_min_priority_queue_should_work_as_expected() {
    let mut queue = PriorityQueue::<isize>::new(false);

    assert!(queue.is_empty());

    for v in 0..100 {
        queue.insert(v);
    }

    for v in 0..100 {
        assert!(queue.delete() == Some(v));
    }

    assert!(queue.is_empty());

    queue.insert(1);
    queue.insert(10);
    queue.insert(20);
    queue.insert(5);
    queue.insert(-10);
    queue.insert(-30);
    queue.insert(-2);
    queue.insert(1);
    queue.insert(5);

    assert!(queue.delete().unwrap() == -30);
    assert!(queue.delete().unwrap() == -10);
    assert!(queue.delete().unwrap() == -2);
    assert!(queue.delete().unwrap() == 1);
    assert!(queue.delete().unwrap() == 1);
    assert!(queue.delete().unwrap() == 5);
    assert!(queue.delete().unwrap() == 5);
    assert!(queue.delete().unwrap() == 10);
    assert!(queue.delete().unwrap() == 20);

    assert!(queue.is_empty());
}


#[test]
fn a_priority_queue_hands_out_equal_keys_one_after_the_other() {
    let mut queue = PriorityQueue::<u8>::new(true);

    for key in [3, 1, 3, 2, 3, 0] {
        queue.insert(key);
    }

    for key in [3, 3, 3, 2, 1, 0] {
        assert!(!queue.is_empty());
        assert!(queue.delete() == Some(key));
    }
    assert!(queue.is_empty());
    queue.insert(9);
    assert!(queue.delete() == Some(9));
}
