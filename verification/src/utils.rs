//! Building blocks shared by every graph encoding.

pub mod node_type;
pub mod marking;
pub mod cycle_checker;
pub mod graph;
pub mod evaluation;
pub mod random;
pub mod fitness_metrics;
pub mod boolean_grid;
pub mod vect_difference;
pub mod boolean_functions;
pub mod toposort;
pub mod ant;
pub mod selection;
pub mod runner;
pub mod ranking;
