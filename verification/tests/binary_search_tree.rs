use algs::algorithms::binary_search_tree::BST;

#[test]
fn binary_search_tree_interface_operations_should_work_as_expected() {
    let mut bst = BST::Leaf;

    assert!(bst.size() == 0);

    bst.put(0, "v");

    assert!(bst.get(0) == Some(&"v"));
    assert!(bst.size() == 1);

    let mut bst = BST::<i32, &str>::new(0, "v");

    bst.put(-1, "vv");
    bst.put(3, "vvv");
    bst.put(-2, "vvvv");
    bst.put(5, "vvvvv");
    bst.put(7, "vvvvvvv");

    assert!(bst.size() == 6);
    assert!(bst.get(0) == Some(&"v"));
    assert!(bst.get(-1) == Some(&"vv"));
    assert!(bst.get(3) == Some(&"vvv"));
    assert!(bst.get(-2) == Some(&"vvvv"));
    assert!(bst.get(5) == Some(&"vvvvv"));
    assert!(bst.get(7) == Some(&"vvvvvvv"));

    assert!(bst.min() == bst.get(-2));
    assert!(bst.max() == bst.get(7));

    bst.put(-3, "min");
    bst.put(8, "max");

    assert!(bst.size() == 8);
    assert!(bst.min() == bst.get(-3));
    assert!(bst.max() == bst.get(8));
}

#[test]
fn retrives_keys_with_inorder_ordering() {
    let mut bst = BST::Leaf;

    bst.put(0, "0");
    bst.put(-1, "vv");
    bst.put(3, "vvv");
    bst.put(-2, "vvvv");
    bst.put(5, "vvvvv");
    bst.put(7, "vvvvvvv");
    bst.put(-3, "min");
    bst.put(8, "max");

    let mut keys = bst.keys();

    for k in vec![-3, -2, -1, 0, 3, 5, 7, 8] {
        assert!(keys.dequeue() == Some(&k));
    }
}

#[test]
fn retrives_values_with_inorder_ordering() {
    let mut bst = BST::Leaf;

    bst.put(0, "0");
    bst.put(-1, "-1");
    bst.put(3, "3");
    bst.put(-2, "-2");
    bst.put(5, "5");
    bst.put(7, "7");
    bst.put(-3, "-3");
    bst.put(8, "8");

    let mut values = bst.values();

    for v in vec!["-3", "-2", "-1", "0", "3", "5", "7", "8"] {
        assert!(values.dequeue() == Some(&v));
    }
}


#[test]
fn put_keeps_the_value_of_a_key_that_is_there() {
    let mut bst = BST::new(5, "first");

    bst.put(5, "second");
    bst.put(3, "three");
    bst.put(3, "again");

    assert!(bst.size() == 2);
    assert!(bst.get(5) == Some(&"first"));
    assert!(bst.get(3) == Some(&"three"));
    assert!(bst.get(4) == None);
    assert!(bst.min() == Some(&"three"));
    assert!(bst.max() == Some(&"first"));
}

#[test]
fn an_empty_tree_has_no_least_and_no_largest_key() {
    let bst: BST<i32, i32> = BST::Leaf;

    assert!(bst.is_leaf());
    assert!(bst.size() == 0);
    assert!(bst.min() == None);
    assert!(bst.max() == None);
    assert!(bst.get(1) == None);
    assert!(bst.keys().is_empty());
    assert!(bst.values().is_empty());
    assert!(!BST::new(1, 1).is_leaf());
}
