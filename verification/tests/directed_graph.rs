use algs::algorithms::directed_graph::{
    BFSPaths, DFSPaths, DGraph, DirectedCycle, KosarajuSharirSCC, TopologicalSort,
};

#[test]
fn directed_graph_dfs_interface_operations_should_work_as_expected() {
    let mut g = DGraph::new(13);

    g.add_edge(4, 2);
    g.add_edge(2, 3);
    g.add_edge(3, 2);
    g.add_edge(6, 0);
    g.add_edge(0, 1);
    g.add_edge(2, 0);
    g.add_edge(11, 12);
    g.add_edge(12, 9);
    g.add_edge(9, 10);
    g.add_edge(9, 11);
    g.add_edge(7, 9);
    g.add_edge(10, 12);
    g.add_edge(11, 4);
    g.add_edge(4, 3);
    g.add_edge(3, 5);
    g.add_edge(6, 8);
    g.add_edge(8, 6);
    g.add_edge(5, 4);
    g.add_edge(0, 5);
    g.add_edge(6, 4);
    g.add_edge(6, 9);
    g.add_edge(7, 6);

    let paths = DFSPaths::new(&g, 0);

    assert!(paths.has_path_to(0));
    assert!(paths.has_path_to(1));
    assert!(paths.has_path_to(2));
    assert!(paths.has_path_to(3));
    assert!(paths.has_path_to(4));

    let paths = DFSPaths::new(&g, 9);

    assert!(paths.has_path_to(9));
    assert!(paths.has_path_to(10));
    assert!(paths.has_path_to(11));
    assert!(paths.has_path_to(12));

    let paths = DFSPaths::new(&g, 7);

    assert!(paths.has_path_to(7));
    assert!(paths.has_path_to(6));
    assert!(paths.has_path_to(8));
    assert!(paths.has_path_to(0));
    assert!(paths.has_path_to(9));
    assert!(paths.has_path_to(10));
    assert!(paths.has_path_to(11));
    assert!(paths.has_path_to(12));
}

#[test]
fn directed_graph_bfs_interface_operations_should_work_as_expected() {
    let mut g = DGraph::new(13);

    g.add_edge(4, 2);
    g.add_edge(2, 3);
    g.add_edge(3, 2);
    g.add_edge(6, 0);
    g.add_edge(0, 1);
    g.add_edge(2, 0);
    g.add_edge(11, 12);
    g.add_edge(12, 9);
    g.add_edge(9, 10);
    g.add_edge(9, 11);
    g.add_edge(7, 9);
    g.add_edge(10, 12);
    g.add_edge(11, 4);
    g.add_edge(4, 3);
    g.add_edge(3, 5);
    g.add_edge(6, 8);
    g.add_edge(8, 6);
    g.add_edge(5, 4);
    g.add_edge(0, 5);
    g.add_edge(6, 4);
    g.add_edge(6, 9);
    g.add_edge(7, 6);

    let paths = BFSPaths::new(&g, 0);

    assert!(paths.has_path_to(0));
    assert!(paths.has_path_to(1));
    assert!(paths.has_path_to(2));
    assert!(paths.has_path_to(3));
    assert!(paths.has_path_to(4));

    let paths = BFSPaths::new(&g, 9);

    assert!(paths.has_path_to(9));
    assert!(paths.has_path_to(10));
    assert!(paths.has_path_to(11));
    assert!(paths.has_path_to(12));

    let paths = BFSPaths::new(&g, 7);

    assert!(paths.has_path_to(7));
    assert!(paths.has_path_to(6));
    assert!(paths.has_path_to(8));
    assert!(paths.has_path_to(0));
    assert!(paths.has_path_to(9));
    assert!(paths.has_path_to(10));
    assert!(paths.has_path_to(11));
    assert!(paths.has_path_to(12));
}

#[test]
fn it_creates_topological_sort_on_gad() {
    let mut g = DGraph::new(7);

    g.add_edge(0, 5);
    g.add_edge(0, 2);
    g.add_edge(0, 1);
    g.add_edge(3, 6);
    g.add_edge(3, 5);
    g.add_edge(3, 4);
    g.add_edge(5, 2);
    g.add_edge(6, 4);
    g.add_edge(6, 0);
    g.add_edge(3, 2);
    g.add_edge(1, 4);

    let mut paths = TopologicalSort::new(&g);
    let sorting = paths.reverse_post_mut();

    assert!(sorting.pop() == Some(3));
    assert!(sorting.pop() == Some(6));
    assert!(sorting.pop() == Some(0));
    assert!(sorting.pop() == Some(5));
    assert!(sorting.pop() == Some(2));
    assert!(sorting.pop() == Some(1));
    assert!(sorting.pop() == Some(4));
}

#[test]
fn it_detects_directed_cycles() {
    let mut g = DGraph::new(6);

    g.add_edge(0, 1);
    g.add_edge(1, 2);
    g.add_edge(2, 3);
    g.add_edge(1, 3);
    g.add_edge(1, 4);
    g.add_edge(4, 3);

    let paths = DirectedCycle::new(&g);

    assert!(!paths.has_cycle());

    let mut g = DGraph::new(5);

    g.add_edge(0, 1);
    g.add_edge(1, 2);
    g.add_edge(2, 3);
    g.add_edge(1, 3);
    g.add_edge(3, 1);
    g.add_edge(1, 4);
    g.add_edge(4, 3);

    let mut paths = DirectedCycle::new(&g);

    assert!(paths.has_cycle());

    let c = paths.cycle_mut();

    assert!(c.pop() == Some(3));
    assert!(c.pop() == Some(1));
    assert!(c.pop() == Some(4));
}

#[test]
fn it_strongly_connected_components() {
    let mut g = DGraph::new(13);

    g.add_edge(4, 2);
    g.add_edge(2, 3);
    g.add_edge(3, 2);
    g.add_edge(6, 0);
    g.add_edge(0, 1);
    g.add_edge(2, 0);
    g.add_edge(11, 12);
    g.add_edge(12, 9);
    g.add_edge(9, 10);
    g.add_edge(9, 11);
    g.add_edge(7, 9);
    g.add_edge(10, 12);
    g.add_edge(11, 4);
    g.add_edge(4, 3);
    g.add_edge(3, 5);
    g.add_edge(6, 8);
    g.add_edge(8, 6);
    g.add_edge(5, 4);
    g.add_edge(0, 5);
    g.add_edge(6, 4);
    g.add_edge(6, 9);
    g.add_edge(7, 6);

    let cc = KosarajuSharirSCC::new(&g);

    assert!(!cc.strongly_connected(0, 1));
    assert!(!cc.strongly_connected(2, 6));
    assert!(!cc.strongly_connected(6, 9));
    assert!(!cc.strongly_connected(7, 6));
    assert!(!cc.strongly_connected(7, 9));

    assert!(cc.strongly_connected(0, 2));
    assert!(cc.strongly_connected(0, 3));
    assert!(cc.strongly_connected(0, 4));
    assert!(cc.strongly_connected(0, 5));
    assert!(cc.strongly_connected(2, 3));
    assert!(cc.strongly_connected(2, 4));

    assert!(cc.strongly_connected(6, 8));

    assert!(cc.strongly_connected(9, 10));
    assert!(cc.strongly_connected(9, 12));
}

