use cgp::cgp_es::chromosome::Chromosome;
use cgp::cgp_es::node::{Node, NBR_BINARY_FUNCTIONS, NBR_FUNCTIONS};
use cgp::global_params::CgpParameters;
use cgp::utils::node_type::NodeType;
use cgp::utils::runner::Runner;
use cgp::utils::graph::first_listed;
use cgp::utils::selection::{
    closest_unused, fresh_members_of, new_parent_by_neutral_search, new_parents_by_fuss,
    new_parents_by_tie_classes, new_random_parents, selection_pool,
};

fn params(nbr_inputs: usize, graph_width: usize, nbr_outputs: usize, mu: usize, lambda: usize) -> CgpParameters {
    let mut p = CgpParameters::default();
    p.nbr_inputs = nbr_inputs;
    p.graph_width = graph_width;
    p.nbr_outputs = nbr_outputs;
    p.mu = mu;
    p.lambda = lambda;
    p
}

fn node(position: usize, node_type: NodeType, function_id: usize, c1: usize, c2: usize) -> Node {
    Node { position, node_type, nbr_inputs: 2, graph_width: 2, function_id, connection1: c1, connection2: c2 }
}

#[test]
fn unary_function_reads_one_connection() {
    assert_eq!((NBR_FUNCTIONS, NBR_BINARY_FUNCTIONS), (14, 4));
    let graph = |function_id| Chromosome {
        params: params(2, 2, 1, 1, 4),
        nodes_grid: vec![
            node(0, NodeType::InputNode, 0, usize::MAX, usize::MAX),
            node(1, NodeType::InputNode, 0, usize::MAX, usize::MAX),
            node(2, NodeType::ComputationalNode, 0, 0, 0),
            node(3, NodeType::ComputationalNode, function_id, 2, 1),
            node(4, NodeType::OutputNode, 0, 3, usize::MAX),
        ],
        output_node_ids: vec![4],
        active_nodes: None,
    };
    // a binary function reads both connections
    let mut binary = graph(3);
    binary.get_active_nodes_id();
    assert_eq!(binary.active_nodes, Some(vec![0, 1, 2, 3, 4]));
    // the first unary function reads only the first
    let mut unary = graph(4);
    unary.get_active_nodes_id();
    assert_eq!(unary.active_nodes, Some(vec![0, 2, 3, 4]));
}

#[test]
fn random_numeric_graph_is_well_formed() {
    for _ in 0..20 {
        let mut graph = Chromosome::new(params(3, 15, 2, 1, 4));
        assert_eq!(graph.nodes_grid.len(), 20);
        assert_eq!(graph.output_node_ids, vec![18, 19]);
        assert!(graph.active_nodes.is_none());
        for (v, n) in graph.nodes_grid.iter().enumerate() {
            assert_eq!(n.position, v);
            assert!(n.function_id < 14);
            if v < 3 {
                assert!(n.node_type == NodeType::InputNode);
                assert_eq!((n.connection1, n.connection2), (usize::MAX, usize::MAX));
            } else if v < 18 {
                assert!(n.node_type == NodeType::ComputationalNode);
                assert!(n.connection1 < v && n.connection2 < v);
            } else {
                assert!(n.node_type == NodeType::OutputNode);
                assert!(n.connection1 < 18);
                assert_eq!(n.connection2, usize::MAX);
            }
        }
        assert!(graph.check_wf());
        graph.get_active_nodes_id();
        assert!(graph.mutate_single().is_some());
        graph.mutate_prob(16_777_216);
        for (v, n) in graph.nodes_grid.iter().enumerate() {
            if v >= 3 && v < 18 {
                assert!(n.connection1 < v && n.connection2 < v && n.function_id < 14);
            }
        }
        let copy = graph.clone();
        assert_eq!(copy.output_node_ids, graph.output_node_ids);
        assert_eq!(copy.active_nodes, graph.active_nodes);
        for v in 0..20 {
            assert_eq!(copy.nodes_grid[v].connection1, graph.nodes_grid[v].connection1);
            assert_eq!(copy.nodes_grid[v].function_id, graph.nodes_grid[v].function_id);
        }
    }
}

#[test]
fn two_table_ant_is_written_into_the_graph() {
    let mut graph = Chromosome::new(params(2, 2, 1, 1, 4));
    // functions of the two computational nodes; pairs (0, 1) and (2, 0), output reads 3
    let func_ant = vec![5, 2];
    let conn_ant = vec![0 * 4 + 1, 2 * 4 + 0, 3];
    assert!(graph.check_two_table_ant(&func_ant, &conn_ant));
    graph.set_two_table_ant(&func_ant, &conn_ant);
    let n = &graph.nodes_grid;
    assert_eq!((n[2].function_id, n[2].connection1, n[2].connection2), (5, 0, 1));
    assert_eq!((n[3].function_id, n[3].connection1, n[3].connection2), (2, 2, 0));
    assert_eq!((n[4].connection1, n[4].connection2), (3, usize::MAX));
    graph.get_active_nodes_id();
    assert_eq!(graph.active_nodes, Some(vec![0, 2, 3, 4]));
    // a connection to a later node does not fit, nor an unknown function
    assert!(!graph.check_two_table_ant(&func_ant, &vec![2 * 4 + 0, 1, 3]));
    assert!(!graph.check_two_table_ant(&vec![14, 2], &conn_ant));
    assert!(!graph.check_two_table_ant(&func_ant, &vec![1, 1, 4]));
}

#[test]
fn one_table_ant_is_written_into_the_graph() {
    let mut graph = Chromosome::new(params(2, 2, 1, 1, 4));
    let constant = 4 * 4 * 4;
    let second_before = graph.nodes_grid[3].connection2;
    // a pair (1, 0) for the first node, function 6 with connection 2 for the second
    let ant = vec![16 + 1 * 4 + 0, constant + 6 * 4 + 2, 1];
    assert!(graph.check_one_table_ant(&ant, constant));
    graph.set_one_table_ant(&ant, constant);
    let n = &graph.nodes_grid;
    assert_eq!((n[2].function_id, n[2].connection1, n[2].connection2), (0, 1, 0));
    assert_eq!((n[3].function_id, n[3].connection1, n[3].connection2), (6, 2, second_before));
    assert_eq!(n[4].connection1, 1);
    assert!(!graph.check_one_table_ant(&vec![2 * 4 + 0, constant, 1], constant));
    assert!(!graph.check_one_table_ant(&vec![0, constant + 3, 1], constant));
    assert!(!graph.check_one_table_ant(&vec![0, constant + 14 * 4, 1], constant));
}

#[test]
fn pool_leaves_out_replaced_parents() {
    assert_eq!(selection_pool(5, &vec![3, 1], false), vec![0, 1, 2, 3, 4]);
    assert_eq!(selection_pool(5, &vec![3, 1], true), vec![0, 2, 4]);
    assert_eq!(selection_pool(0, &vec![], true), Vec::<usize>::new());
}

#[test]
fn neutral_search_takes_the_best() {
    let keys = vec![5, 1, 3, 1, 9];
    let pool = vec![0, 1, 2, 3, 4];
    assert_eq!(new_parent_by_neutral_search(&keys, &pool, &vec![], 2), vec![1, 3]);
    assert_eq!(new_parent_by_neutral_search(&keys, &pool, &vec![], 4), vec![1, 3, 2, 0]);
    assert_eq!(new_parent_by_neutral_search(&keys, &pool, &vec![], 0), Vec::<usize>::new());
    // among equals, the graph that was no parent is preferred
    assert_eq!(new_parent_by_neutral_search(&keys, &pool, &vec![1], 1), vec![3]);
    assert_eq!(new_parent_by_neutral_search(&keys, &pool, &vec![1, 3], 1), vec![1]);
    // a better parent still wins
    assert_eq!(new_parent_by_neutral_search(&vec![2, 1], &vec![0, 1], &vec![1], 1), vec![1]);
    // without the old parents in the pool
    assert_eq!(new_parent_by_neutral_search(&keys, &vec![0, 2, 4], &vec![1, 3], 2), vec![2, 0]);
}

#[test]
fn random_parents_are_distinct() {
    let pool = vec![0, 2, 4, 6, 8, 10];
    for _ in 0..100 {
        let chosen = new_random_parents(&pool, 4);
        assert_eq!(chosen.len(), 4);
        for (i, c) in chosen.iter().enumerate() {
            assert!(pool.contains(c));
            assert!(!chosen[..i].contains(c));
        }
    }
    let mut all = new_random_parents(&pool, 9);
    all.sort();
    assert_eq!(all, pool);
}

#[test]
fn generation_of_the_evolution_strategy() {
    let mut runner = Runner::new(params(3, 10, 2, 2, 4), 0, 0, 0);
    assert_eq!(runner.chromosomes.len(), 6);
    assert_eq!(runner.two_conn_constant, 13 * 13 * 4);
    assert!(runner.parent_ids.is_empty());
    let keys = vec![7, 3, 9, 3, 8, 1];
    runner.new_parents_by_method(false, &keys, &vec![]);
    assert_eq!(runner.parent_ids, vec![5, 1]);
    let parents: Vec<Vec<(usize, usize, usize)>> = [5, 1]
        .iter()
        .map(|&p: &usize| {
            runner.chromosomes[p].nodes_grid.iter().map(|n| (n.function_id, n.connection1, n.connection2)).collect()
        })
        .collect();
    runner.mutate_chromosomes();
    // the parents are untouched
    for (k, &p) in [5usize, 1].iter().enumerate() {
        let now: Vec<(usize, usize, usize)> =
            runner.chromosomes[p].nodes_grid.iter().map(|n| (n.function_id, n.connection1, n.connection2)).collect();
        assert_eq!(now, parents[k]);
    }
    runner.get_active_nodes();
    let counts = runner.get_num_active_nodes();
    assert_eq!(counts.len(), 6);
    let all = runner.get_all_active_nodes();
    assert_eq!(all.len(), counts.iter().sum::<usize>());
    let mut offset = 0;
    for i in 0..6 {
        let active = runner.chromosomes[i].active_nodes.clone().unwrap();
        assert_eq!(active.len(), counts[i]);
        assert_eq!(&all[offset..offset + counts[i]], &active[..]);
        offset += counts[i];
    }
    // each child has the inputs of the parent whose turn it was: 5, 1, 5, 1
    let turns = [(0usize, 5usize), (2, 1), (3, 5), (4, 1)];
    for (child, parent) in turns {
        for v in 0..3 {
            assert_eq!(
                runner.chromosomes[child].nodes_grid[v].function_id,
                runner.chromosomes[parent].nodes_grid[v].function_id
            );
        }
    }
    // with the parents replaced, the next parents come from the children
    runner.new_parents_by_method(true, &keys, &vec![]);
    assert_eq!(runner.parent_ids, vec![3, 0]);
    let first = runner.get_parent();
    assert_eq!(first.nodes_grid.len(), 15);
    for v in 0..15 {
        assert_eq!(first.nodes_grid[v].connection1, runner.chromosomes[3].nodes_grid[v].connection1);
    }
}

#[test]
fn random_elitism_and_given_parents() {
    let mut runner = Runner::new(params(2, 5, 1, 2, 4), 1, 16_777_216, 1);
    let keys = vec![0; 6];
    runner.new_parents_by_method(false, &keys, &vec![]);
    assert_eq!(runner.parent_ids.len(), 2);
    assert!(runner.parent_ids[0] != runner.parent_ids[1]);
    let old = runner.parent_ids.clone();
    runner.new_parents_by_method(true, &keys, &vec![]);
    assert_eq!(runner.parent_ids.len(), 2);
    for p in &runner.parent_ids {
        assert!(!old.contains(p) && *p < 6);
    }
    runner.set_parent_ids(vec![4, 0]);
    assert_eq!(runner.parent_ids, vec![4, 0]);
    // without a chance of mutation the children are copies of the parents in turn
    runner.mutation_threshold = 0;
    runner.mutate_chromosomes();
    for (child, parent) in [(1usize, 4usize), (2, 0), (3, 4), (5, 0)] {
        for v in 0..8 {
            let c = &runner.chromosomes[child].nodes_grid[v];
            let p = &runner.chromosomes[parent].nodes_grid[v];
            assert_eq!((c.function_id, c.connection1, c.connection2), (p.function_id, p.connection1, p.connection2));
        }
    }
    runner.mutation_threshold = 16_777_216;
    runner.mutate_chromosomes();
    for c in &runner.chromosomes {
        for (v, n) in c.nodes_grid.iter().enumerate() {
            if v >= 2 && v < 7 {
                assert!(n.connection1 < v && n.connection2 < v);
            }
        }
    }
}

#[test]
fn ants_of_a_generation() {
    let mut runner = Runner::new(params(2, 2, 1, 1, 1), 0, 0, 0);
    let func_ants = vec![vec![5, 2], vec![13, 0]];
    let conn_ants = vec![vec![1, 8, 3], vec![5, 6, 0]];
    assert!(runner.check_two_table_ants(&func_ants, &conn_ants));
    runner.set_two_table_ants(&func_ants, &conn_ants);
    let n = &runner.chromosomes[1].nodes_grid;
    assert_eq!((n[2].function_id, n[2].connection1, n[2].connection2), (13, 1, 1));
    assert_eq!((n[3].function_id, n[3].connection1, n[3].connection2), (0, 1, 2));
    assert_eq!(n[4].connection1, 0);
    assert!(!runner.check_two_table_ants(&func_ants, &vec![vec![1, 8, 3]]));
    assert!(!runner.check_two_table_ants(&func_ants, &vec![vec![1, 8, 3], vec![5, 12, 0]]));
    // the first graph: node 2 has unary function 5, node 3 binary function 2
    assert_eq!(runner.choices(0), 2);
    assert_eq!(runner.choices(1), 3 * 3);
    assert_eq!(runner.choices(2), 4);
    let constant = runner.two_conn_constant;
    let ants = vec![vec![16 + 4, constant + 24 + 2, 1], vec![0, 5, 2]];
    assert!(runner.check_one_table_ants(&ants));
    runner.set_one_table_ants(&ants);
    let n = &runner.chromosomes[0].nodes_grid;
    assert_eq!((n[2].function_id, n[2].connection1, n[2].connection2), (0, 1, 0));
    assert_eq!((n[3].function_id, n[3].connection1), (6, 2));
    assert!(!runner.check_one_table_ants(&vec![vec![16 + 4, constant + 24 + 3, 1], vec![0, 5, 2]]));
}

#[test]
fn children_of_random_parents() {
    let mut runner = Runner::new(params(2, 6, 1, 2, 3), 0, 0, 0);
    runner.set_parent_ids(vec![3, 1]);
    let inputs_of = |r: &Runner, i: usize| -> Vec<usize> {
        r.chromosomes[i].nodes_grid[..2].iter().map(|n| n.function_id).collect()
    };
    let parents = [inputs_of(&runner, 3), inputs_of(&runner, 1)];
    runner.mutate_chromosomes_random_parent();
    for i in [0usize, 2, 4] {
        let child = inputs_of(&runner, i);
        assert!(child == parents[0] || child == parents[1]);
        for (v, n) in runner.chromosomes[i].nodes_grid.iter().enumerate() {
            if v >= 2 && v < 8 {
                assert!(n.connection1 < v && n.connection2 < v);
            }
        }
    }
    assert_eq!(inputs_of(&runner, 3), parents[0]);
    assert_eq!(inputs_of(&runner, 1), parents[1]);
}

#[test]
fn steps_of_an_evaluation() {
    let mut graph = Chromosome {
        params: params(2, 2, 1, 1, 4),
        nodes_grid: vec![
            node(0, NodeType::InputNode, 0, usize::MAX, usize::MAX),
            node(1, NodeType::InputNode, 0, usize::MAX, usize::MAX),
            node(2, NodeType::ComputationalNode, 7, 0, 1),
            node(3, NodeType::ComputationalNode, 2, 2, 1),
            node(4, NodeType::OutputNode, 0, 3, usize::MAX),
        ],
        output_node_ids: vec![4],
        active_nodes: None,
    };
    graph.get_active_nodes_id();
    let steps: Vec<(usize, usize, usize, usize)> =
        graph.evaluation_steps().iter().map(|s| (s.position, s.function_id, s.first, s.second)).collect();
    // inputs read their own column; the unary function 7 reads its first connection only
    assert_eq!(steps, vec![(0, 0, 0, 0), (1, 0, 1, 1), (2, 7, 0, 0), (3, 2, 2, 1), (4, 0, 3, 3)]);
}

#[test]
fn closest_unused_is_the_first_of_the_nearest() {
    let pool = vec![1, 2, 4, 5];
    let distances = vec![0, 9, 3, 0, 3, 7];
    assert_eq!(closest_unused(&distances, &pool, &vec![false, false, false, false]), 1);
    assert_eq!(closest_unused(&distances, &pool, &vec![false, true, false, false]), 2);
    assert_eq!(closest_unused(&distances, &pool, &vec![false, true, true, false]), 3);
    assert_eq!(closest_unused(&distances, &pool, &vec![false, true, true, true]), 0);
}

#[test]
fn fitness_uniform_parents_are_the_closest_unused() {
    let pool = vec![0, 1, 3, 4];
    // one row for every parent: the distance of each individual to the target
    let rows = vec![vec![5, 2, 0, 2, 9], vec![1, 0, 0, 3, 1], vec![4, 4, 0, 4, 4]];
    assert_eq!(new_parents_by_fuss(&rows, &pool), vec![1, 0, 3]);
    assert_eq!(new_parents_by_fuss(&vec![], &pool), Vec::<usize>::new());
    let all = new_parents_by_fuss(&vec![vec![3, 3, 3, 3, 3]; 4], &pool);
    assert_eq!(all, pool);
}

#[test]
fn fitness_uniform_elitism_of_the_runner() {
    let mut runner = Runner::new(params(2, 5, 1, 2, 4), 0, 0, 2);
    let keys = vec![0; 6];
    let rows = vec![vec![6, 5, 4, 3, 2, 1], vec![1, 9, 9, 9, 9, 0]];
    runner.new_parents_by_method(false, &keys, &rows);
    assert_eq!(runner.parent_ids, vec![5, 0]);
    // the parents are left out where they are to be replaced
    runner.new_parents_by_method(true, &keys, &rows);
    assert_eq!(runner.parent_ids, vec![4, 1]);
    // without rows the fitness values are all alike: any distinct graphs
    runner.new_parents_by_method(true, &keys, &vec![]);
    assert_eq!(runner.parent_ids.len(), 2);
    assert!(runner.parent_ids[0] != runner.parent_ids[1]);
    for p in &runner.parent_ids {
        assert!(*p != 4 && *p != 1 && *p < 6);
    }
}

#[test]
fn new_runner_caches_the_current_active_nodes() {
    let runner = Runner::new(params(3, 8, 2, 1, 3), 0, 0, 0);
    for graph in &runner.chromosomes {
        let cached = graph.active_nodes.clone();
        let mut fresh = graph.clone();
        fresh.get_active_nodes_id();
        assert!(cached.is_some());
        assert_eq!(cached, fresh.active_nodes);
    }
}

#[test]
fn children_of_a_single_mutation_differ_in_an_active_node() {
    let mut runner = Runner::new(params(3, 8, 2, 1, 3), 0, 0, 0);
    runner.set_parent_ids(vec![2]);
    let parent = runner.chromosomes[2].clone();
    let active = parent.active_nodes.clone().unwrap();
    runner.mutate_chromosomes();
    for child in [0usize, 1, 3] {
        let differs = active.iter().any(|&v| {
            let c = &runner.chromosomes[child].nodes_grid[v];
            let p = &parent.nodes_grid[v];
            v >= 3 && (c.function_id, c.connection1, c.connection2) != (p.function_id, p.connection1, p.connection2)
        });
        assert!(differs);
        assert_eq!(runner.chromosomes[child].active_nodes, parent.active_nodes);
    }
    runner.mutate_chromosomes_random_parent();
    for child in [0usize, 1, 3] {
        let differs = active.iter().any(|&v| {
            let c = &runner.chromosomes[child].nodes_grid[v];
            let p = &parent.nodes_grid[v];
            v >= 3 && (c.function_id, c.connection1, c.connection2) != (p.function_id, p.connection1, p.connection2)
        });
        assert!(differs);
    }
}

#[test]
fn first_listed_node_in_a_range() {
    assert_eq!(first_listed(&vec![0, 9, 4, 3, 7], 3, 8), Some(4));
    assert_eq!(first_listed(&vec![0, 9, 8, 2], 3, 8), None);
    assert_eq!(first_listed(&vec![], 0, 8), None);
    assert_eq!(first_listed(&vec![3], 3, 4), Some(3));
}

#[test]
fn fresh_members_are_named_once() {
    assert_eq!(fresh_members_of(&vec![4, 1, 4, 7, 2, 1], &vec![7], &vec![]), vec![4, 1, 2]);
    assert_eq!(fresh_members_of(&vec![4, 1, 4, 7, 2, 1], &vec![7], &vec![1, 9]), vec![4, 2]);
    assert_eq!(fresh_members_of(&vec![], &vec![7], &vec![1]), Vec::<usize>::new());
}

#[test]
fn tie_classes_fill_the_parents_best_first() {
    // the best class fits in: all of it, old parents too; the next fills the places exactly
    assert_eq!(new_parents_by_tie_classes(&vec![vec![3, 0], vec![5], vec![1, 2]], &vec![3, 5], 3), vec![3, 0, 5]);
    // a later class that does not fill the places exactly gives up its old parents
    assert_eq!(new_parents_by_tie_classes(&vec![vec![3], vec![5, 1], vec![2, 4]], &vec![5], 4), vec![3, 1, 2, 4]);
    // more ties than places: the old parents go first, then the class is cut
    assert_eq!(new_parents_by_tie_classes(&vec![vec![0, 1, 2, 3]], &vec![1], 2), vec![0, 2]);
    assert_eq!(new_parents_by_tie_classes(&vec![vec![0], vec![1, 2, 3, 4]], &vec![2], 3), vec![0, 1, 3]);
    // classes that overlap name no parent twice
    assert_eq!(new_parents_by_tie_classes(&vec![vec![0, 1], vec![0, 1], vec![2], vec![3]], &vec![], 3), vec![0, 1, 2]);
    // too few graphs, or no parent wanted
    assert_eq!(new_parents_by_tie_classes(&vec![vec![0], vec![1]], &vec![], 5), vec![0, 1]);
    assert_eq!(new_parents_by_tie_classes(&vec![vec![0], vec![1]], &vec![], 0), Vec::<usize>::new());
    assert_eq!(new_parents_by_tie_classes(&vec![], &vec![1], 2), Vec::<usize>::new());
}
