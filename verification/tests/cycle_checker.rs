use cgp::utils::cycle_checker::CGPEdges;

#[test]
fn new_graph_has_no_path() {
    let mut edges = CGPEdges::new(3);
    for a in 0..3 {
        for b in 0..3 {
            assert!(!edges.check_cycle(a, b));
        }
    }
}

#[test]
fn chain_is_reached_forward_only() {
    let mut edges = CGPEdges::new(4);
    edges.add_edge(1, 0);
    edges.add_edge(2, 1);
    edges.add_edge(3, 2);
    // 3 depends on 2, 2 on 1, 1 on 0: a dependency of 0 on 3 would close a cycle.
    assert!(edges.check_cycle(0, 3));
    assert!(edges.check_cycle(1, 3));
    assert!(edges.check_cycle(0, 1));
    assert!(!edges.check_cycle(3, 0));
    assert!(!edges.check_cycle(3, 2));
    // a position does not reach itself in a graph without a cycle
    assert!(!edges.check_cycle(2, 2));
}

#[test]
fn removed_edge_is_no_longer_followed() {
    let mut edges = CGPEdges::new(3);
    edges.add_edge(1, 0);
    edges.add_edge(2, 1);
    assert!(edges.check_cycle(0, 2));
    edges.remove_edge(2, 1);
    assert!(!edges.check_cycle(0, 2));
    assert!(edges.check_cycle(0, 1));
}

#[test]
fn only_the_first_of_two_equal_edges_is_removed() {
    let mut edges = CGPEdges::new(2);
    edges.add_edge(1, 0);
    edges.add_edge(1, 0);
    edges.remove_edge(1, 0);
    assert!(edges.check_cycle(0, 1));
    edges.remove_edge(1, 0);
    assert!(!edges.check_cycle(0, 1));
}

#[test]
fn diamond_is_searched_once_per_node() {
    let mut edges = CGPEdges::new(5);
    edges.add_edge(4, 3);
    edges.add_edge(4, 2);
    edges.add_edge(3, 1);
    edges.add_edge(2, 1);
    edges.add_edge(1, 0);
    assert!(edges.check_cycle(0, 4));
    assert!(edges.check_cycle(1, 4));
    assert!(!edges.check_cycle(4, 1));
    assert!(!edges.check_cycle(3, 2));
}

#[test]
fn recorded_edges_can_be_read() {
    let mut edges = CGPEdges::new(3);
    edges.add_edge(2, 0);
    edges.add_edge(2, 1);
    assert_eq!(edges.len(), 3);
    assert_eq!((edges.count(2), edges.count(1)), (2, 0));
    assert_eq!((edges.target(2, 0), edges.target(2, 1)), (0, 1));
    assert!(edges.check_targets());
    edges.add_edge(1, 7);
    assert!(!edges.check_targets());
    let copy = edges.clone();
    assert_eq!((copy.len(), copy.count(2), copy.target(1, 0)), (3, 2, 7));
}
