use cgp::cgp_es::node::Node;
use cgp::dag::node_dag::{candidate_connections, NodeDAG};
use cgp::reorder::node_reorder::NodeReorder;
use cgp::utils::cycle_checker::CGPEdges;
use cgp::utils::node_type::NodeType;

#[test]
fn new_nodes_are_wired_as_their_role_asks() {
    for _ in 0..100 {
        let input = NodeReorder::new(1, 3, 5, NodeType::InputNode);
        assert_eq!((input.connection1, input.connection2), (usize::MAX, usize::MAX));
        assert!(input.function_id < 4 && input.check_wf());
        let inner = NodeReorder::new(4, 3, 5, NodeType::ComputationalNode);
        assert!(inner.connection1 < 4 && inner.connection2 < 4 && inner.function_id < 4);
        assert_eq!((inner.position, inner.nbr_inputs, inner.graph_width), (4, 3, 5));
        assert!(inner.check_wf());
        let output = NodeReorder::new(8, 3, 5, NodeType::OutputNode);
        assert!(output.connection1 < 8 && output.connection2 == usize::MAX && output.check_wf());
        let numeric = Node::new(4, 3, 5, NodeType::ComputationalNode);
        assert!(numeric.connection1 < 4 && numeric.connection2 < 4 && numeric.function_id < 14);
        assert!(numeric.check_wf());
    }
    // a node outside the region of its role is not well-formed
    assert!(!NodeReorder::new(1, 3, 5, NodeType::ComputationalNode).check_wf());
    assert!(!NodeReorder::new(7, 3, 5, NodeType::OutputNode).check_wf());
}

#[test]
fn mutation_changes_one_gene() {
    for _ in 0..200 {
        let before = Node::new(6, 3, 5, NodeType::ComputationalNode);
        let mut node = before;
        node.mutate();
        let changed = (before.function_id != node.function_id) as usize
            + (before.connection1 != node.connection1) as usize
            + (before.connection2 != node.connection2) as usize;
        assert_eq!(changed, 1);
        assert!(node.connection1 < 6 && node.connection2 < 6 && node.function_id < 14);
        let before = NodeReorder::new(8, 3, 5, NodeType::OutputNode);
        let mut output = before;
        output.mutate();
        assert!(output.connection1 != before.connection1 && output.connection1 < 8);
        assert_eq!(output.connection2, usize::MAX);
        assert_eq!(output.function_id, before.function_id);
    }
    // the only node that an output can read is kept
    let mut lonely = NodeReorder::new(1, 1, 0, NodeType::OutputNode);
    lonely.mutate();
    assert_eq!(lonely.connection1, 0);
    // a computational node behind one input has no other connection to draw
    for _ in 0..50 {
        let mut single = NodeReorder::new(1, 1, 1, NodeType::ComputationalNode);
        let function_before = single.function_id;
        single.mutate();
        assert_eq!((single.connection1, single.connection2), (0, 0));
        assert!(single.function_id < 4);
        let _ = function_before;
    }
}

#[test]
fn dag_node_takes_no_connection_that_closes_a_cycle() {
    // node 3 reads node 2, which reads node 1: node 1 and node 2 may not read node 3
    let mut edges = CGPEdges::new(5);
    edges.add_edge(1, 0);
    edges.add_edge(1, 0);
    edges.add_edge(2, 1);
    edges.add_edge(2, 0);
    edges.add_edge(3, 2);
    edges.add_edge(3, 0);
    assert_eq!(candidate_connections(0, 1, 4, &mut edges), vec![]);
    assert_eq!(candidate_connections(1, 2, 4, &mut edges), vec![0]);
    assert_eq!(candidate_connections(2, 3, 4, &mut edges), vec![0, 1]);
    assert_eq!(candidate_connections(0, 3, 4, &mut edges), vec![1, 2]);
    for _ in 0..100 {
        let mut edges = edges.clone();
        let mut node = NodeDAG {
            position: 2,
            node_type: NodeType::ComputationalNode,
            nbr_inputs: 1,
            graph_width: 4,
            function_id: 0,
            connection1: 1,
            connection2: 0,
        };
        assert!(node.check_wf());
        node.mutate(&mut edges);
        // never node 3, which depends on node 2, nor node 2 itself
        assert!(node.connection1 < 2 && node.connection2 < 2);
        assert_eq!(edges.count(2), 2);
        let recorded = [edges.target(2, 0), edges.target(2, 1)];
        assert!(
            recorded == [node.connection1, node.connection2] || recorded == [node.connection2, node.connection1]
        );
        assert!(!edges.check_cycle(2, 2));
    }
}

#[test]
fn new_dag_node_records_its_connections() {
    for _ in 0..50 {
        let mut edges = CGPEdges::new(6);
        let node = NodeDAG::new(4, 2, 4, NodeType::ComputationalNode, &mut edges);
        assert!(node.connection1 < 4 && node.connection2 < 4 && node.function_id < 4);
        assert_eq!(edges.count(4), 2);
        assert_eq!((edges.target(4, 0), edges.target(4, 1)), (node.connection1, node.connection2));
        let output = NodeDAG::new(6, 2, 4, NodeType::OutputNode, &mut edges);
        assert!(output.connection1 < 6);
        assert_eq!(edges.count(4), 2);
        let a = vec![true, false];
        let b = vec![true, true];
        let expected = [vec![true, false], vec![true, true], vec![false, true], vec![false, false]];
        assert_eq!(node.execute(&a, &b), expected[node.function_id]);
    }
}
