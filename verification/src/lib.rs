//! Cartesian genetic programming: graphs of nodes that compute outputs from
//! inputs, and the parts of an evolutionary or ant colony search for such
//! graphs that work on whole numbers and truth values.
//!
//! Four encodings hold a graph as a grid of nodes: the numeric array encoding
//! (`cgp_es`), the boolean array encoding (`vanilla_cgp`), the boolean array
//! encodings whose nodes are reordered before a mutation (`reorder`), and the
//! boolean encoding whose nodes may read any node that does not depend on
//! them (`dag`). For each the library finds the active nodes, mutates, and,
//! for the boolean ones, evaluates; `utils` holds what they share, the
//! selection of parents and the layout of pheromone tables.

pub mod cgp_es;
pub mod dag;
pub mod global_params;
pub mod reorder;
pub mod utils;
pub mod vanilla_cgp;
