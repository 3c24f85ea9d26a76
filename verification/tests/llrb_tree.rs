use algs::algorithms::llrb_tree::LLRBT;

#[test]
fn llrb_tree_interface_operations_should_work_as_expected() {
    let mut rbt = LLRBT::Leaf;
    assert!(rbt.size() == 0);

    rbt.put(0, "v");

    assert!(rbt.size() == 1);
    assert!(rbt.get(0) == Some(&"v"));

    let mut rbt = LLRBT::<i32, &str>::new(0, "v");

    rbt.put(-1, "vv");
    rbt.put(3, "vvv");
    rbt.put(-2, "vvvv");
    rbt.put(5, "vvvvv");
    rbt.put(7, "vvvvvvv");

    assert!(rbt.size() == 6);
    assert!(rbt.get(0) == Some(&"v"));
    assert!(rbt.get(-1) == Some(&"vv"));
    assert!(rbt.get(3) == Some(&"vvv"));
    assert!(rbt.get(-2) == Some(&"vvvv"));
    assert!(rbt.get(5) == Some(&"vvvvv"));
    assert!(rbt.get(7) == Some(&"vvvvvvv"));

    assert!(rbt.min() == rbt.get(-2));
    assert!(rbt.max() == rbt.get(7));

    rbt.put(-3, "min");
    rbt.put(8, "max");

    assert!(rbt.size() == 8);
    assert!(rbt.min() == rbt.get(-3));
    assert!(rbt.max() == rbt.get(8));
}


#[test]
fn every_link_that_put_makes_is_black() {
    let mut rbt = LLRBT::new(4, "four");

    assert!(!rbt.is_red());
    for k in [2, 6, 1, 3, 5, 7, 8, 9, 10] {
        rbt.put(k, "more");
        assert!(!rbt.is_red());
    }
    rbt.put(4, "again");

    assert!(rbt.size() == 10);
    assert!(rbt.get(4) == Some(&"four"));
    assert!(rbt.get(11) == None);
    assert!(!rbt.is_leaf());
    let leaf: LLRBT<i32, &str> = LLRBT::Leaf;
    assert!(leaf.is_leaf() && !leaf.is_red() && leaf.min() == None && leaf.max() == None);
}
