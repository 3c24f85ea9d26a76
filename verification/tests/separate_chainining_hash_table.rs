use algs::algorithms::separate_chainining_hash_table::HashTable;

#[test]
fn separate_chainining_hash_table_interface_operations_should_work_as_expected() {
    let mut t = HashTable::<String, String>::new();

    t.put(String::from("key"), String::from("some value 1"));
    t.put(String::from("key-ab"), String::from("some value 2"));
    t.put(String::from("key-abcd"), String::from("some value 3"));
    t.put(String::from("key-abcdef"), String::from("some value 4"));
    t.put(
        String::from("key-abcdefghijk"),
        String::from("some value 5"),
    );

    assert!(t.get(String::from("key")) == Some(&String::from("some value 1")));
    assert!(t.get(String::from("key-ab")) == Some(&String::from("some value 2")));
    assert!(t.get(String::from("key-abcd")) == Some(&String::from("some value 3")));
    assert!(t.get(String::from("key-abcdef")) == Some(&String::from("some value 4")));
    assert!(t.get(String::from("key-abcdefghijk")) == Some(&String::from("some value 5")));
}

#[test]
fn hash_table_put_replaces_the_value_of_a_key_that_is_there() {
    let mut t = HashTable::<u32, u32>::new();

    assert!(t.get(7) == None);
    t.put(7, 1);
    t.put(8, 2);
    t.put(7, 3);

    assert!(t.get(7) == Some(&3));
    assert!(t.get(8) == Some(&2));
    assert!(t.get(9) == None);
}

#[test]
fn hash_table_chains_keep_the_order_of_arrival() {
    let mut t = HashTable::<u32, &str>::new();

    t.put_in(3, 10, "a");
    t.put_in(3, 20, "b");
    t.put_in(3, 30, "c");
    t.put_in(3, 20, "d");

    assert!(t.get_in(3, 10) == Some(&"a"));
    assert!(t.get_in(3, 20) == Some(&"d"));
    assert!(t.get_in(3, 30) == Some(&"c"));
    assert!(t.get_in(3, 40) == None);
    assert!(t.get_in(4, 10) == None);
}

#[test]
fn hash_table_keys_are_spread_over_the_chains() {
    let mut t = HashTable::<u32, u32>::new();

    for key in 0..200 {
        t.put(key, key + 1);
    }

    let mut chains_in_use = 0;
    for i in 0..10000 {
        if (0..200).any(|key| t.get_in(i, key).is_some()) {
            chains_in_use += 1;
        }
    }
    assert!(chains_in_use > 100);
    for key in 0..200 {
        assert!(t.get(key) == Some(&(key + 1)));
    }
}

#[test]
fn a_hash_selects_the_chain_of_its_remainder() {
    let t = HashTable::<u32, u32>::new();

    assert!(t.chain_for(0) == 0);
    assert!(t.chain_for(9_999) == 9_999);
    assert!(t.chain_for(10_000) == 0);
    assert!(t.chain_for(10_007) == 7);
    assert!(t.chain_for(u64::MAX) == 1_615);
}
