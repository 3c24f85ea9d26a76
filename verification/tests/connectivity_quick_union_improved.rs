use algs::algorithms::connectivity_quick_find::Network as QuickFind;
use algs::algorithms::connectivity_quick_union::Network as QuickUnion;
use algs::algorithms::connectivity_quick_union_improved::Network;

#[test]
fn connectivity_quick_union_improved_correctly_determines_connections() {
    let mut network = Network::new(100);

    assert!(network.connected(0, 0));
    assert!(network.connected(50, 50));
    assert!(network.connected(99, 99));

    assert!(!network.connected(0, 1));
    assert!(!network.connected(0, 99));

    network.union(0, 10);

    assert!(network.connected(0, 10));

    network.union(10, 20);
    network.union(20, 30);

    assert!(network.connected(10, 20));
    assert!(network.connected(20, 10));
    assert!(network.connected(10, 30));

    network.union(10, 40);
    network.union(30, 40);

    assert!(network.connected(10, 40));
    assert!(network.connected(20, 40));

    network.union(50, 90);
    network.union(50, 55);
    network.union(55, 70);
    network.union(90, 70);

    assert!(!network.connected(0, 55));
    assert!(!network.connected(10, 70));
    assert!(!network.connected(20, 90));
    assert!(!network.connected(30, 50));
    assert!(!network.connected(40, 55));

    network.union(30, 50);

    assert!(network.connected(0, 55));
    assert!(network.connected(10, 70));
    assert!(network.connected(20, 90));
    assert!(network.connected(30, 50));
    assert!(network.connected(40, 55));
}


#[test]
fn every_union_find_merges_the_groups_of_the_two_elements() {
    let pairs = [(0, 1), (2, 3), (1, 3), (5, 6), (6, 7), (7, 5), (9, 9), (4, 0)];
    let mut find = QuickFind::new(10);
    let mut union = QuickUnion::new(10);
    let mut halving = Network::new(10);
    let mut group: Vec<usize> = (0..10).collect();

    for &(p, q) in &pairs {
        find.union(p, q);
        union.union(p, q);
        halving.union(p, q);
        let (from, to) = (group[p], group[q]);
        for g in group.iter_mut() {
            if *g == from {
                *g = to;
            }
        }
        for a in 0..10 {
            for b in 0..10 {
                let same = group[a] == group[b];
                assert!(find.connected(a, b) == same);
                assert!(union.connected(a, b) == same);
                assert!(halving.connected(a, b) == same);
            }
        }
    }
}
