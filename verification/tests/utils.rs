use cgp::global_params::CgpParameters;
use cgp::utils::ant::{
    decode_one_table, decode_pair, one_table_allowed, one_table_width, two_conn_constant, two_table_allowed,
    NBR_UNARY_FUNCTIONS,
};
use cgp::utils::boolean_functions::{and, nand, nor, or};
use cgp::utils::evaluation::filled;
use cgp::utils::fitness_metrics::{class_histogram, correlation_counts, fitness_boolean};
use cgp::utils::graph::{collect_marked, contains};
use cgp::utils::node_type::NodeType;
use cgp::utils::ranking::{
    calculate_greedy, get_argmax, get_argmin, get_first_argmax, get_max, get_min, greedy_choice, BestAnt,
};
use cgp::utils::random::{draw_mutation, gen_random_number, mutation_drawn, skip_excluded, MUTATION_DRAWS};
use cgp::utils::vect_difference::vect_difference;

fn params(nbr_inputs: usize, graph_width: usize, nbr_outputs: usize) -> CgpParameters {
    let mut p = CgpParameters::default();
    p.nbr_inputs = nbr_inputs;
    p.graph_width = graph_width;
    p.nbr_outputs = nbr_outputs;
    p
}

#[test]
fn default_parameters() {
    let p = CgpParameters::default();
    assert_eq!(p.graph_width, 0);
    assert_eq!(p.iterations, 1_000_000);
    assert_eq!(p.mu, 1);
    assert_eq!(p.lambda, 4);
    assert_eq!(p.eval_after_iterations, 500);
    assert_eq!(p.nbr_inputs, 0);
    assert_eq!(p.nbr_outputs, 0);
    assert_eq!(p.mutation_type, 0);
    assert_eq!(p.distance_function, 0);
}

#[test]
fn node_type_names() {
    assert_eq!(NodeType::InputNode.name(), "Input_Node");
    assert_eq!(NodeType::ComputationalNode.name(), "Computational_Node");
    assert_eq!(NodeType::OutputNode.name(), "Output_Node");
    assert!(NodeType::InputNode != NodeType::OutputNode);
}

#[test]
fn boolean_functions_on_columns() {
    let a = vec![true, true, false, false];
    let b = vec![true, false, true, false];
    assert_eq!(and(&a, &b), vec![true, false, false, false]);
    assert_eq!(or(&a, &b), vec![true, true, true, false]);
    assert_eq!(nand(&a, &b), vec![false, true, true, true]);
    assert_eq!(nor(&a, &b), vec![false, false, false, true]);
    assert_eq!(and(&vec![], &vec![]), Vec::<bool>::new());
}

#[test]
fn fitness_counts_agreeing_bits() {
    let output = vec![vec![true, false], vec![false, false], vec![true, true]];
    let labels = vec![vec![true, true], vec![false, false], vec![false, true]];
    assert_eq!(fitness_boolean(&output, &labels), 4);
    assert_eq!(1.0 - 4.0 / 6.0, 1.0 - fitness_boolean(&output, &labels) as f64 / 6.0);
    assert_eq!(fitness_boolean(&labels, &labels), 6);
    assert_eq!(fitness_boolean(&vec![], &vec![]), 0);
}

#[test]
fn difference_of_lists() {
    assert_eq!(vect_difference(&vec![2, 3, 4, 5, 6], &vec![3, 6, 9]), vec![2, 4, 5]);
    assert_eq!(vect_difference(&vec![5, 1, 5, 2, 1], &vec![2]), vec![5, 1]);
    assert_eq!(vect_difference(&vec![1, 2], &vec![1, 2]), Vec::<usize>::new());
    assert_eq!(vect_difference(&vec![], &vec![1]), Vec::<usize>::new());
}

#[test]
fn marked_positions_in_order() {
    assert_eq!(collect_marked(&vec![false, true, true, false, true]), vec![1, 2, 4]);
    assert_eq!(collect_marked(&vec![]), Vec::<usize>::new());
    assert!(contains(&vec![4, 7, 1], 7));
    assert!(!contains(&vec![4, 7, 1], 2));
    assert_eq!(filled(true, 3), vec![true, true, true]);
}

#[test]
fn excluded_number_is_skipped() {
    assert_eq!(skip_excluded(0, 3), 0);
    assert_eq!(skip_excluded(2, 3), 2);
    assert_eq!(skip_excluded(3, 3), 4);
    assert_eq!(skip_excluded(7, 3), 8);
    assert_eq!(skip_excluded(0, 0), 1);
}

#[test]
fn random_number_avoids_the_excluded() {
    let mut seen = [false; 5];
    for _ in 0..500 {
        let r = gen_random_number(2, 5);
        assert!(r < 5 && r != 2);
        seen[r] = true;
    }
    assert_eq!(seen, [true, true, false, true, true]);
    for _ in 0..100 {
        assert!(gen_random_number(9, 5) < 5);
        assert_eq!(gen_random_number(0, 1), 0);
        assert_eq!(gen_random_number(0, 0), 0);
        assert_eq!(gen_random_number(0, 2), 1);
    }
}

#[test]
fn mutation_draw_respects_its_bounds() {
    assert_eq!(MUTATION_DRAWS, 1 << 24);
    let mut hits = 0;
    for _ in 0..2000 {
        assert!(!draw_mutation(0));
        assert!(draw_mutation(MUTATION_DRAWS));
        if draw_mutation(MUTATION_DRAWS / 2) {
            hits += 1;
        }
    }
    assert!(hits > 800 && hits < 1200);
}

#[test]
fn columns_decode_to_connections() {
    assert_eq!(decode_pair(17, 5), (3, 2));
    assert_eq!(decode_pair(4, 5), (0, 4));
    assert_eq!(two_conn_constant(5), 100);
    assert_eq!(NBR_UNARY_FUNCTIONS, 10);
    assert_eq!(one_table_width(5), 150);
    assert_eq!(one_table_width(0), 0);
    // the last column stands for the last function that reads one connection
    let last = decode_one_table(149, 5, 100);
    assert_eq!((last.function_id, last.connection1, last.connection2), (9, 4, None));
    // below the two-connection constant: function 0 and a pair of connections
    let pair = decode_one_table(42, 5, 100);
    assert_eq!((pair.function_id, pair.connection1, pair.connection2), (0, 3, Some(2)));
    let pair = decode_one_table(99, 5, 100);
    assert_eq!((pair.function_id, pair.connection1, pair.connection2), (0, 4, Some(4)));
    // from it on: a function and one connection
    let single = decode_one_table(100, 5, 100);
    assert_eq!((single.function_id, single.connection1, single.connection2), (0, 0, None));
    let single = decode_one_table(117, 5, 100);
    assert_eq!((single.function_id, single.connection1, single.connection2), (3, 2, None));
}

#[test]
fn allowed_cells_point_backward() {
    let p = params(2, 3, 1);
    // row 1 belongs to the node at position 3: both connections must lie below 3
    assert!(two_table_allowed(&p, 1, 2 * 5 + 1));
    assert!(!two_table_allowed(&p, 1, 3 * 5 + 1));
    assert!(!two_table_allowed(&p, 1, 1 * 5 + 3));
    // row 3 belongs to the output: any position before the outputs
    assert!(two_table_allowed(&p, 3, 4));
    assert!(!two_table_allowed(&p, 3, 5));
    let constant = two_conn_constant(5);
    assert!(one_table_allowed(&p, constant, 1, 25 + 2 * 5 + 1));
    assert!(!one_table_allowed(&p, constant, 1, 25 + 3 * 5 + 1));
    assert!(one_table_allowed(&p, constant, 1, constant + 5 + 2));
    assert!(!one_table_allowed(&p, constant, 1, constant + 5 + 3));
    assert!(one_table_allowed(&p, constant, 3, 4));
    assert!(!one_table_allowed(&p, constant, 3, 5));
    // every allowed cell of the first row names input connections only
    for j in 0..25 {
        let (c1, c2) = decode_pair(j, 5);
        assert_eq!(two_table_allowed(&p, 0, j), c1 < 2 && c2 < 2);
    }
}

#[test]
fn extremes_of_keys() {
    let keys = vec![4, 9, 1, 9, 1, 3];
    // the first of the smallest, the last of the largest
    assert_eq!(get_argmin(&keys), 2);
    assert_eq!(get_argmax(&keys), 3);
    assert_eq!(get_first_argmax(&keys), 1);
    assert_eq!(get_min(&keys), 1);
    assert_eq!(get_max(&keys), 9);
    assert_eq!(get_argmin(&vec![7]), 0);
    assert_eq!(get_argmax(&vec![7]), 0);
    let row = vec![0, 0, 6, 0];
    assert_eq!(get_argmax(&row), 2);
}

#[test]
fn greedy_choice_never_falls_on_a_zero_weight() {
    assert_eq!(
        calculate_greedy(&vec![vec![0, 5, 2], vec![3, 3, 0], vec![0, 0, 1]], 0),
        vec![Some(1), Some(1), Some(2)]
    );
    // a row of zero weights gets no choice, nor does a row without columns
    assert_eq!(calculate_greedy(&vec![vec![0, 0, 0], vec![0, 4], vec![]], 0), vec![None, Some(1), None]);
    assert_eq!(calculate_greedy(&vec![], 0), Vec::<Option<usize>>::new());
    // a cell of weight zero is not chosen beside a positive weight
    assert_eq!(greedy_choice(&vec![0, 0, 6, 0], 0), Some(2));
    assert_eq!(greedy_choice(&vec![0, 0, 0, 0], 0), None);
    // the key of zero need not be 0: keys at or below it stand for no weight
    assert_eq!(greedy_choice(&vec![7, 3, 7, 5], 7), None);
    assert_eq!(greedy_choice(&vec![7, 3, 8, 8, 5], 7), Some(3));
}

#[test]
fn mutation_is_drawn_below_the_threshold() {
    assert!(mutation_drawn(0, 1));
    assert!(!mutation_drawn(0, 0));
    assert!(mutation_drawn(4_999, 5_000));
    assert!(!mutation_drawn(5_000, 5_000));
    assert!(mutation_drawn(16_777_215, MUTATION_DRAWS));
    assert!(!mutation_drawn(16_777_215, 16_777_215));
    // exactly `threshold` of the outcomes call for a mutation
    assert_eq!((0..1000).filter(|&draw| mutation_drawn(draw, 37)).count(), 37);
}

#[test]
fn best_ant_is_replaced_by_a_better_one() {
    let mut best = BestAnt::new();
    assert!(best.key.is_none());
    assert!(best.offer(10, &vec![1, 2]));
    assert_eq!((best.key, best.ant.clone()), (Some(10), vec![1, 2]));
    assert!(!best.offer(10, &vec![3, 4]));
    assert!(!best.offer(11, &vec![3, 4]));
    assert_eq!((best.key, best.ant.clone()), (Some(10), vec![1, 2]));
    assert!(best.offer(9, &vec![5]));
    assert_eq!((best.key, best.ant.clone()), (Some(9), vec![5]));
}

#[test]
fn counts_of_the_correlation_score() {
    let predicted = vec![0, 1, 1, 2, 0, 1];
    let actual = vec![0, 1, 2, 2, 1, 1];
    assert_eq!(class_histogram(&predicted, 3), vec![2, 3, 1]);
    assert_eq!(class_histogram(&actual, 4), vec![1, 3, 2, 0]);
    let counts = correlation_counts(&predicted, &actual, 3);
    // 4 correct of 6; products 1*2 + 3*3 + 2*1; squares 4 + 9 + 1 and 1 + 9 + 4
    assert_eq!(counts.covariance, 4 * 6 - 13);
    assert_eq!(counts.predicted_spread, 36 - 14);
    assert_eq!(counts.actual_spread, 36 - 14);
    let score = 1.0 - (counts.covariance as f64 / ((22.0f64).sqrt() * (22.0f64).sqrt())).abs();
    assert!((score - 0.5).abs() < 1e-12);
    // a perfect prediction: the score is 0
    let perfect = correlation_counts(&actual, &actual, 3);
    assert_eq!(perfect.covariance, 36 - 14);
    assert_eq!(perfect.covariance, perfect.actual_spread);
    // one class only: the spread is zero and the score is defined as 1 - 0
    let flat = correlation_counts(&vec![1, 1, 1], &vec![1, 1, 1], 2);
    assert_eq!((flat.covariance, flat.predicted_spread, flat.actual_spread), (0, 0, 0));
    let empty = correlation_counts(&vec![], &vec![], 2);
    assert_eq!((empty.covariance, empty.predicted_spread, empty.actual_spread), (0, 0, 0));
}
