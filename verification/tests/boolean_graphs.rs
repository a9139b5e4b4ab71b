use cgp::dag::chromosome_dag::Chromosome as DagChromosome;
use cgp::dag::node_dag::NodeDAG;
use cgp::global_params::CgpParameters;
use cgp::reorder::chromosome_reorder::Chromosome as ReorderChromosome;
use cgp::reorder::chromosome_reorder_equidistant::Chromosome as EquidistantChromosome;
use cgp::reorder::node_reorder::NodeReorder;
use cgp::utils::cycle_checker::CGPEdges;
use cgp::utils::node_type::NodeType;
use cgp::vanilla_cgp::chromosome::Chromosome as VanillaChromosome;

fn params(nbr_inputs: usize, graph_width: usize, nbr_outputs: usize) -> CgpParameters {
    let mut p = CgpParameters::default();
    p.nbr_inputs = nbr_inputs;
    p.graph_width = graph_width;
    p.nbr_outputs = nbr_outputs;
    p
}

fn node(position: usize, node_type: NodeType, function_id: usize, c1: usize, c2: usize) -> NodeReorder {
    NodeReorder {
        position,
        node_type,
        nbr_inputs: 2,
        graph_width: 1,
        function_id,
        connection1: c1,
        connection2: c2,
    }
}

fn and_graph(function_id: usize) -> VanillaChromosome {
    VanillaChromosome {
        params: params(2, 1, 1),
        nodes_grid: vec![
            node(0, NodeType::InputNode, 0, usize::MAX, usize::MAX),
            node(1, NodeType::InputNode, 0, usize::MAX, usize::MAX),
            node(2, NodeType::ComputationalNode, function_id, 0, 1),
            node(3, NodeType::OutputNode, 0, 2, usize::MAX),
        ],
        output_node_ids: vec![3],
        active_nodes: None,
    }
}

fn truth_table_inputs() -> Vec<Vec<bool>> {
    vec![vec![true, true], vec![true, false], vec![false, false]]
}

fn boolean_fitness(matches: usize, total: usize) -> f64 {
    1.0 - matches as f64 / total as f64
}

#[test]
fn and_node_matches_its_truth_table() {
    let mut graph = and_graph(0);
    let labels = vec![vec![true], vec![false], vec![false]];
    let matches = graph.evaluate(&truth_table_inputs(), &labels);
    // every bit agrees: the share of agreeing bits is 1, the share of disagreeing bits 0
    assert_eq!(matches, 3);
    assert_eq!(matches as f64 / 3.0, 1.0);
    assert_eq!(boolean_fitness(matches, 3), 0.0);
    assert_eq!(graph.active_nodes, Some(vec![0, 1, 2, 3]));
}

#[test]
fn the_four_functions_are_and_or_nand_nor() {
    let inputs = truth_table_inputs();
    let expected = [
        vec![vec![true], vec![false], vec![false]],
        vec![vec![true], vec![true], vec![false]],
        vec![vec![false], vec![true], vec![true]],
        vec![vec![false], vec![false], vec![true]],
    ];
    for function_id in 0..4 {
        let mut graph = and_graph(function_id);
        assert_eq!(graph.evaluate(&inputs, &expected[function_id]), 3);
        let negated: Vec<Vec<bool>> = expected[function_id].iter().map(|r| vec![!r[0]]).collect();
        assert_eq!(graph.evaluate(&inputs, &negated), 0);
    }
}

#[test]
fn dag_and_node_matches_its_truth_table() {
    let mut cgp_edges = CGPEdges::new(3);
    cgp_edges.add_edge(2, 0);
    cgp_edges.add_edge(2, 1);
    let dag_node = |position, node_type, c1, c2| NodeDAG {
        position,
        node_type,
        nbr_inputs: 2,
        graph_width: 1,
        function_id: 0,
        connection1: c1,
        connection2: c2,
    };
    let mut graph = DagChromosome {
        params: params(2, 1, 1),
        nodes_grid: vec![
            dag_node(0, NodeType::InputNode, usize::MAX, usize::MAX),
            dag_node(1, NodeType::InputNode, usize::MAX, usize::MAX),
            dag_node(2, NodeType::ComputationalNode, 0, 1),
            dag_node(3, NodeType::OutputNode, 2, usize::MAX),
        ],
        output_node_ids: vec![3],
        active_nodes: None,
        cgp_edges,
    };
    let labels = vec![vec![true], vec![false], vec![false]];
    assert_eq!(graph.evaluate(&truth_table_inputs(), &labels), 3);
    let active = graph.active_nodes.clone().unwrap();
    assert_eq!(active.len(), 4);
    let place = |v: usize| active.iter().position(|&x| x == v).unwrap();
    assert!(place(0) < place(2) && place(1) < place(2) && place(2) < place(3));
}

#[test]
fn inactive_nodes_are_left_out() {
    let p = params(2, 3, 1);
    let n = |position, node_type, c1, c2| NodeReorder {
        position,
        node_type,
        nbr_inputs: 2,
        graph_width: 3,
        function_id: 1,
        connection1: c1,
        connection2: c2,
    };
    let mut graph = VanillaChromosome {
        params: p,
        nodes_grid: vec![
            n(0, NodeType::InputNode, usize::MAX, usize::MAX),
            n(1, NodeType::InputNode, usize::MAX, usize::MAX),
            n(2, NodeType::ComputationalNode, 0, 0),
            n(3, NodeType::ComputationalNode, 2, 1),
            n(4, NodeType::ComputationalNode, 1, 1),
            n(5, NodeType::OutputNode, 4, usize::MAX),
        ],
        output_node_ids: vec![5],
        active_nodes: None,
    };
    graph.get_active_nodes_id();
    assert_eq!(graph.active_nodes, Some(vec![1, 4, 5]));
}

#[test]
fn zero_width_graph_copies_inputs() {
    for _ in 0..20 {
        let mut graph = VanillaChromosome::new(params(3, 0, 2));
        let inputs = vec![vec![true, false, true], vec![false, false, true]];
        let c0 = graph.nodes_grid[3].connection1;
        let c1 = graph.nodes_grid[4].connection1;
        assert!(c0 < 3 && c1 < 3);
        let labels: Vec<Vec<bool>> = inputs.iter().map(|r| vec![r[c0], r[c1]]).collect();
        assert_eq!(graph.evaluate(&inputs, &labels), 4);
        let wrong: Vec<Vec<bool>> = inputs.iter().map(|r| vec![!r[c0], r[c1]]).collect();
        assert_eq!(graph.evaluate(&inputs, &wrong), 2);
    }
}

#[test]
fn zero_width_dag_and_reorder_graphs_evaluate() {
    let inputs = vec![vec![true, false], vec![false, true]];
    let labels = vec![vec![true], vec![true]];
    let mut dag = DagChromosome::new(params(2, 0, 1));
    assert_eq!(dag.evaluate(&inputs, &labels), 1);
    let mut reorder = ReorderChromosome::new(params(2, 0, 1));
    assert_eq!(reorder.evaluate(&inputs, &labels), 1);
    reorder.active_nodes = None;
    reorder.reorder();
    assert_eq!(reorder.active_nodes.clone().map(|a| a.contains(&2)), Some(true));
    assert_eq!(reorder.evaluate(&inputs, &labels), 1);
}

fn random_matrix(rows: usize, columns: usize, seed: usize) -> Vec<Vec<bool>> {
    (0..rows)
        .map(|r| (0..columns).map(|c| ((r * 31 + c * 17 + seed * 7) / 3) % 2 == 0).collect())
        .collect()
}

fn check_active(nodes: &Vec<NodeReorder>, active: &Vec<usize>, first_output: usize, total: usize) {
    // ascending
    for k in 1..active.len() {
        assert!(active[k - 1] < active[k]);
    }
    // the outputs are active, and what an active node reads is active
    for o in first_output..total {
        assert!(active.contains(&o));
    }
    for &v in active {
        match nodes[v].node_type {
            NodeType::InputNode => {}
            NodeType::ComputationalNode => {
                assert!(active.contains(&nodes[v].connection1));
                assert!(active.contains(&nodes[v].connection2));
            }
            NodeType::OutputNode => assert!(active.contains(&nodes[v].connection1)),
        }
    }
    // nothing else is: every active node that is no output is read by an active node
    for &v in active {
        if v < first_output {
            assert!(active.iter().any(|&u| {
                nodes[u].node_type != NodeType::InputNode
                    && (nodes[u].connection1 == v
                        || (nodes[u].node_type == NodeType::ComputationalNode && nodes[u].connection2 == v))
            }));
        }
    }
}

#[test]
fn active_nodes_are_ascending_and_closed() {
    for _ in 0..50 {
        let mut graph = VanillaChromosome::new(params(4, 20, 3));
        graph.get_active_nodes_id();
        let active = graph.active_nodes.clone().unwrap();
        check_active(&graph.nodes_grid, &active, 24, 27);
    }
}

#[test]
fn evaluation_is_repeatable() {
    let inputs = random_matrix(16, 4, 1);
    let labels = random_matrix(16, 3, 2);
    for _ in 0..20 {
        let mut graph = VanillaChromosome::new(params(4, 20, 3));
        let first = graph.evaluate(&inputs, &labels);
        let second = graph.evaluate(&inputs, &labels);
        assert_eq!(first, second);
        assert!(first <= 48);
    }
}

#[test]
fn reorder_keeps_the_fitness() {
    let inputs = random_matrix(16, 4, 3);
    let labels = random_matrix(16, 3, 4);
    for _ in 0..50 {
        let mut graph = ReorderChromosome::new(params(4, 20, 3));
        let before = graph.evaluate(&inputs, &labels);
        let count_before = graph.active_nodes.clone().unwrap().len();
        // a cache of positions that no longer hold is replaced
        graph.active_nodes = Some(vec![0, 1]);
        graph.reorder();
        let cache = graph.active_nodes.clone().unwrap();
        check_active(&graph.nodes_grid, &cache, 24, 27);
        assert_eq!(count_before, cache.len());
        let after = graph.evaluate(&inputs, &labels);
        assert_eq!(before, after);
        assert_eq!(Some(cache), graph.active_nodes);
        for (v, node) in graph.nodes_grid.iter().enumerate() {
            assert_eq!(node.position, v);
            if node.node_type == NodeType::ComputationalNode {
                assert!(node.connection1 < v && node.connection2 < v);
            }
        }
    }
}

fn even_spacing(first: usize, last: usize, count: usize) -> Vec<usize> {
    if count == 1 {
        return vec![first];
    }
    (0..count).map(|i| first + i * (last - first) / (count - 1)).collect()
}

#[test]
fn equidistant_reorder_keeps_the_fitness() {
    let inputs = random_matrix(16, 4, 5);
    let labels = random_matrix(16, 3, 6);
    for _ in 0..50 {
        let mut graph = EquidistantChromosome::new(params(4, 20, 3));
        let before = graph.evaluate(&inputs, &labels);
        let listed = graph.active_computational_nodes();
        let count_before = graph.active_nodes.clone().unwrap().len();
        let places = even_spacing(4, 23, listed.len());
        graph.reorder(&places);
        // the active computational nodes stand at the places given, and the
        // cache lists the active nodes of the reordered graph
        let active = graph.active_nodes.clone().unwrap();
        let computational: Vec<usize> = active.iter().cloned().filter(|&v| v >= 4 && v < 24).collect();
        assert_eq!(computational, places);
        assert_eq!(count_before, active.len());
        check_active(&graph.nodes_grid, &active, 24, 27);
        let after = graph.evaluate(&inputs, &labels);
        assert_eq!(before, after);
        for (v, node) in graph.nodes_grid.iter().enumerate() {
            assert_eq!(node.position, v);
            if node.node_type == NodeType::ComputationalNode {
                assert!(node.connection1 < v && node.connection2 < v);
            }
        }
    }
}

#[test]
fn equidistant_mutation_after_reorder() {
    for _ in 0..20 {
        let mut graph = EquidistantChromosome::new(params(3, 10, 2));
        graph.get_active_nodes_id();
        let listed = graph.active_computational_nodes();
        let places = even_spacing(3, 12, listed.len());
        let before: Vec<(usize, usize, usize)> =
            graph.nodes_grid.iter().map(|n| (n.function_id, n.connection1, n.connection2)).collect();
        let hit = graph.mutate_single(&places);
        // the outputs are active, so a node is hit, with or without an
        // active computational node
        let hit = hit.unwrap();
        assert!(hit >= 3 && graph.active_nodes.clone().unwrap().contains(&hit));
        if places.is_empty() {
            // nothing was moved, and the node that was hit has changed
            let n = &graph.nodes_grid[hit];
            assert_ne!(before[hit], (n.function_id, n.connection1, n.connection2));
        }
        graph.get_active_nodes_id();
        let listed = graph.active_computational_nodes();
        let places = even_spacing(3, 12, listed.len());
        graph.mutate_prob(&places, 8_388_608);
        for (v, node) in graph.nodes_grid.iter().enumerate() {
            assert_eq!(node.position, v);
        }
    }
}

#[test]
fn dag_mutations_never_break_the_topological_order() {
    let mut graph = DagChromosome::new(params(3, 12, 2));
    graph.get_active_nodes_id();
    for round in 0..1000 {
        if round % 2 == 0 {
            assert!(graph.mutate_single().is_some());
        } else {
            graph.mutate_prob(4_000_000);
        }
        graph.get_active_nodes_id();
        let active = graph.active_nodes.clone().unwrap();
        // every node stands after the nodes it reads
        for (k, &v) in active.iter().enumerate() {
            let node = &graph.nodes_grid[v];
            if v >= 3 {
                assert!(active[..k].contains(&node.connection1));
            }
            if v >= 3 && v < 15 {
                assert!(active[..k].contains(&node.connection2));
                assert!(node.connection1 != v && node.connection2 != v);
            }
        }
        assert!(active.contains(&15) && active.contains(&16));
        // no node is listed twice
        let mut sorted = active.clone();
        sorted.sort();
        sorted.dedup();
        assert_eq!(sorted.len(), active.len());
    }
}

#[test]
fn dag_connections_may_point_forward() {
    // among many mutated graphs some node reads a later position
    let mut forward = false;
    for _ in 0..50 {
        let mut graph = DagChromosome::new(params(2, 8, 1));
        graph.get_active_nodes_id();
        for _ in 0..50 {
            graph.mutate_prob(16_777_216);
        }
        for v in 2..10 {
            let node = &graph.nodes_grid[v];
            if node.connection1 > v || node.connection2 > v {
                forward = true;
            }
        }
    }
    assert!(forward);
}

#[test]
fn mutation_with_chance_zero_changes_nothing() {
    let mut graph = VanillaChromosome::new(params(3, 10, 2));
    let before: Vec<(usize, usize, usize)> =
        graph.nodes_grid.iter().map(|n| (n.function_id, n.connection1, n.connection2)).collect();
    graph.mutate_prob(0);
    let after: Vec<(usize, usize, usize)> =
        graph.nodes_grid.iter().map(|n| (n.function_id, n.connection1, n.connection2)).collect();
    assert_eq!(before, after);
}

#[test]
fn mutation_with_full_chance_changes_every_node() {
    for _ in 0..20 {
        let mut graph = VanillaChromosome::new(params(3, 10, 2));
        let before: Vec<(usize, usize, usize)> =
            graph.nodes_grid.iter().map(|n| (n.function_id, n.connection1, n.connection2)).collect();
        graph.mutate_prob(16_777_216);
        for v in 0..15 {
            let n = &graph.nodes_grid[v];
            let now = (n.function_id, n.connection1, n.connection2);
            if v < 3 {
                assert_eq!(before[v], now);
            } else {
                // exactly one of the three changed
                let changed = (before[v].0 != now.0) as usize
                    + (before[v].1 != now.1) as usize
                    + (before[v].2 != now.2) as usize;
                assert_eq!(changed, 1);
                if v < 13 {
                    assert!(n.connection1 < v && n.connection2 < v && n.function_id < 4);
                } else {
                    assert!(n.connection1 < 13);
                }
            }
        }
    }
}

#[test]
fn single_mutation_hits_an_active_node() {
    for _ in 0..20 {
        let mut graph = VanillaChromosome::new(params(3, 10, 2));
        graph.get_active_nodes_id();
        assert!(graph.mutate_single().is_some());
        // a cache without computational nodes and outputs can never be hit
        graph.active_nodes = Some(vec![0, 1]);
        let before: Vec<(usize, usize, usize)> =
            graph.nodes_grid.iter().map(|n| (n.function_id, n.connection1, n.connection2)).collect();
        assert!(graph.mutate_single().is_none());
        let after: Vec<(usize, usize, usize)> =
            graph.nodes_grid.iter().map(|n| (n.function_id, n.connection1, n.connection2)).collect();
        assert_eq!(before, after);
        // with one such node listed, that node is hit and changed
        graph.active_nodes = Some(vec![1, 7]);
        assert_eq!(graph.mutate_single(), Some(7));
        let n = &graph.nodes_grid[7];
        assert_ne!(before[7], (n.function_id, n.connection1, n.connection2));
    }
}

#[test]
fn node_executes_its_function_on_columns() {
    let a = vec![true, true, false, false];
    let b = vec![true, false, true, false];
    let expected = [
        vec![true, false, false, false],
        vec![true, true, true, false],
        vec![false, true, true, true],
        vec![false, false, false, true],
    ];
    for function_id in 0..4 {
        let n = node(2, NodeType::ComputationalNode, function_id, 0, 1);
        assert_eq!(n.execute(&a, &b), expected[function_id]);
    }
}

#[test]
fn moved_node_gets_backward_connections() {
    for _ in 0..50 {
        let mut n = node(9, NodeType::ComputationalNode, 0, 7, 2);
        n.set_new_position(5, true);
        assert_eq!(n.position, 5);
        assert!(n.connection1 < 4);
        assert_eq!(n.connection2, 2);
        let mut m = node(9, NodeType::ComputationalNode, 0, 7, 2);
        m.set_new_position(5, false);
        assert_eq!((m.position, m.connection1, m.connection2), (5, 7, 2));
        m.set_connection1(1);
        m.set_connection2(0);
        assert_eq!((m.connection1, m.connection2), (1, 0));
    }
}

#[test]
fn well_formed_graphs_are_told_from_others() {
    let graph = and_graph(0);
    assert!(graph.check_wf());
    for _ in 0..10 {
        assert!(VanillaChromosome::new(params(3, 7, 2)).check_wf());
        assert!(ReorderChromosome::new(params(3, 7, 2)).check_wf());
        assert!(EquidistantChromosome::new(params(3, 7, 2)).check_wf());
        let mut dag = DagChromosome::new(params(3, 7, 2));
        assert!(dag.check_wf());
        dag.get_active_nodes_id();
        dag.mutate_prob(16_777_216);
        assert!(dag.check_wf());
    }
    // a connection to a later node
    let mut forward = and_graph(0);
    forward.nodes_grid[2].connection1 = 2;
    assert!(!forward.check_wf());
    // an unknown function
    let mut unknown = and_graph(0);
    unknown.nodes_grid[2].function_id = 4;
    assert!(!unknown.check_wf());
    // a node at the wrong place
    let mut misplaced = and_graph(0);
    misplaced.nodes_grid[1].position = 0;
    assert!(!misplaced.check_wf());
    // outputs in the wrong list
    let mut outputs = and_graph(0);
    outputs.output_node_ids = vec![2];
    assert!(!outputs.check_wf());
    // a grid of the wrong size
    let mut short = and_graph(0);
    short.nodes_grid.pop();
    assert!(!short.check_wf());
}

#[test]
fn dag_with_a_cycle_is_not_well_formed() {
    let dag_node = |position, node_type, c1, c2| NodeDAG {
        position,
        node_type,
        nbr_inputs: 1,
        graph_width: 2,
        function_id: 0,
        connection1: c1,
        connection2: c2,
    };
    let graph = |c1: usize, record: bool| {
        let mut cgp_edges = CGPEdges::new(3);
        cgp_edges.add_edge(1, c1);
        cgp_edges.add_edge(1, 0);
        if record {
            cgp_edges.add_edge(2, 1);
            cgp_edges.add_edge(2, 0);
        }
        DagChromosome {
            params: params(1, 2, 1),
            nodes_grid: vec![
                dag_node(0, NodeType::InputNode, usize::MAX, usize::MAX),
                dag_node(1, NodeType::ComputationalNode, c1, 0),
                dag_node(2, NodeType::ComputationalNode, 1, 0),
                dag_node(3, NodeType::OutputNode, 2, usize::MAX),
            ],
            output_node_ids: vec![3],
            active_nodes: None,
            cgp_edges,
        }
    };
    assert!(graph(0, true).check_wf());
    // node 1 reads node 2, which reads node 1
    assert!(!graph(2, true).check_wf());
    // the dependencies of node 2 are not recorded
    assert!(!graph(0, false).check_wf());
}

#[test]
fn reordering_graph_mutates_after_the_reorder() {
    let inputs = random_matrix(16, 4, 7);
    let labels = random_matrix(16, 3, 8);
    for _ in 0..30 {
        let mut graph = ReorderChromosome::new(params(4, 12, 3));
        let before = graph.evaluate(&inputs, &labels);
        // without a chance of mutation only the reorder is done: the fitness stays
        graph.mutate_prob(0);
        assert!(graph.check_wf());
        assert_eq!(graph.evaluate(&inputs, &labels), before);
        // a certain mutation changes one gene of every computational node and output
        let functions: Vec<usize> = graph.nodes_grid.iter().map(|n| n.function_id).collect();
        graph.mutate_prob(16_777_216);
        assert!(graph.check_wf());
        for v in 0..4 {
            assert_eq!(graph.nodes_grid[v].function_id, functions[v]);
        }
        // the hit is tested against the active nodes of the reordered graph,
        // whatever the cache held before
        graph.active_nodes = None;
        let hit = graph.mutate_single();
        let cache = graph.active_nodes.clone().unwrap();
        assert!(cache.contains(&hit.unwrap()));
        assert!(hit.unwrap() >= 4);
        assert!(graph.check_wf());
        for k in 1..cache.len() {
            assert!(cache[k - 1] < cache[k]);
        }
        for output in 16..19 {
            assert!(cache.contains(&output));
        }
    }
}

#[test]
fn dag_mutation_with_chance_zero_changes_nothing() {
    let mut graph = DagChromosome::new(params(3, 9, 2));
    let before: Vec<(usize, usize, usize)> =
        graph.nodes_grid.iter().map(|n| (n.function_id, n.connection1, n.connection2)).collect();
    graph.mutate_prob(0);
    let after: Vec<(usize, usize, usize)> =
        graph.nodes_grid.iter().map(|n| (n.function_id, n.connection1, n.connection2)).collect();
    assert_eq!(before, after);
    for _ in 0..20 {
        let before: Vec<(usize, usize, usize)> =
            graph.nodes_grid.iter().map(|n| (n.function_id, n.connection1, n.connection2)).collect();
        graph.mutate_prob(16_777_216);
        assert!(graph.check_wf());
        for v in 0..14 {
            let n = &graph.nodes_grid[v];
            let changed = (before[v].0 != n.function_id) as usize
                + (before[v].1 != n.connection1) as usize
                + (before[v].2 != n.connection2) as usize;
            // an input stays; another node changes at most one gene
            assert!(if v < 3 { changed == 0 } else { changed <= 1 });
        }
        // the outputs always have another position to read
        for v in 12..14 {
            assert!(before[v].1 != graph.nodes_grid[v].connection1);
        }
    }
}
