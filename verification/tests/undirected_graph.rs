use algs::algorithms::linked_list_stack::LinkedStack;
use algs::algorithms::undirected_graph::{BFSPaths, ConnectedComponents, DFSPaths, UGraph};

#[test]
fn undirected_graph_dfs_interface_operations_should_work_as_expected() {
    let mut g = UGraph::new(10);

    g.add_edge(0, 1);

    g.add_edge(0, 2);

    g.add_edge(0, 6);
    g.add_edge(6, 4);
    g.add_edge(4, 5);
    g.add_edge(5, 3);

    g.add_edge(7, 8);

    let paths = DFSPaths::new(&g, 0);

    assert!(paths.has_path_to(0));
    assert!(paths.has_path_to(6));
    assert!(paths.has_path_to(4));
    assert!(paths.has_path_to(5));
    assert!(paths.has_path_to(3));

    let path = paths.path_to(3).unwrap();
    let mut expected_verts = LinkedStack::<usize>::new();

    expected_verts.push(5);
    expected_verts.push(4);
    expected_verts.push(6);
    expected_verts.push(0);

    let mut it = path.iter();
    while let Some(v) = it.next() {
        println!("{}", v);
        assert!(*v == expected_verts.pop().unwrap());
    }

    assert!(!paths.has_path_to(8));
}

#[test]
fn undirected_graph_bfs_interface_operations_should_work_as_expected() {
    let mut g = UGraph::new(10);

    g.add_edge(0, 1);

    g.add_edge(0, 2);

    g.add_edge(0, 6);
    g.add_edge(6, 4);
    g.add_edge(4, 5);
    g.add_edge(5, 3);

    g.add_edge(7, 8);

    let paths = BFSPaths::new(&g, 0);

    assert!(paths.has_path_to(0));
    assert!(paths.has_path_to(6));
    assert!(paths.has_path_to(4));
    assert!(paths.has_path_to(5));
    assert!(paths.has_path_to(3));

    let path = paths.path_to(3).unwrap();
    let mut expected_verts = LinkedStack::<usize>::new();

    expected_verts.push(5);
    expected_verts.push(4);
    expected_verts.push(6);
    expected_verts.push(0);

    let mut it = path.iter();
    while let Some(v) = it.next() {
        println!("{}", v);
        assert!(*v == expected_verts.pop().unwrap());
    }

    assert!(!paths.has_path_to(8));
}

#[test]
fn cc_interface_operations_should_work_as_expected() {
    let mut g = UGraph::new(17);

    g.add_edge(0, 1);
    g.add_edge(0, 2);
    g.add_edge(0, 6);
    g.add_edge(6, 4);
    g.add_edge(4, 5);
    g.add_edge(5, 3);

    g.add_edge(7, 8);

    g.add_edge(9, 10);
    g.add_edge(9, 11);
    g.add_edge(9, 12);
    g.add_edge(11, 12);

    g.add_edge(13, 14);
    g.add_edge(13, 15);
    g.add_edge(13, 16);
    g.add_edge(15, 16);
    g.add_edge(14, 15);

    let cc = ConnectedComponents::new(&g);

    assert!(cc.count == 4);

    assert!(cc.id(0) == Some(0));
    assert!(cc.id(5) == Some(0));
    assert!(cc.id(6) == Some(0));
    assert!(cc.id(4) == Some(0));
    assert!(cc.id(7) == Some(1));
    assert!(cc.id(9) == Some(2));
    assert!(cc.id(10) == Some(2));
    assert!(cc.id(11) == Some(2));
    assert!(cc.id(13) == Some(3));
    assert!(cc.id(14) == Some(3));
    assert!(cc.id(16) == Some(3));
}

