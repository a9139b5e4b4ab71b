//! Sizes and settings of a search.

use vstd::prelude::*;

verus! {

/// The sizes of the graphs and of the population, and the settings of the
/// search that are whole numbers.
#[derive(Clone, Copy, Debug)]
pub struct CgpParameters {
    pub graph_width: usize,
    pub iterations: usize,
    pub mu: usize,
    pub lambda: usize,
    pub eval_after_iterations: usize,
    pub nbr_inputs: usize,
    pub nbr_outputs: usize,
    pub mutation_type: i32,
    pub distance_function: i32,
}

impl CgpParameters {
    /// The number of positions of a graph: inputs, computational nodes, outputs.
    pub open spec fn total(&self) -> int {
        self.nbr_inputs + self.graph_width + self.nbr_outputs
    }

    /// The positions can be counted, and every node that reads a connection has
    /// a position to read.
    pub open spec fn wf(&self) -> bool {
        &&& self.total() <= usize::MAX
        &&& self.graph_width > 0 ==> self.nbr_inputs > 0
        &&& self.nbr_outputs > 0 ==> self.nbr_inputs + self.graph_width > 0
    }
}

impl Default for CgpParameters {
    fn default() -> (r: Self)
        ensures
            r == (CgpParameters {
                graph_width: 0,
                iterations: 1_000_000,
                mu: 1,
                lambda: 4,
                eval_after_iterations: 500,
                nbr_inputs: 0,
                nbr_outputs: 0,
                mutation_type: 0,
                distance_function: 0,
            }),
    {
        CgpParameters {
            graph_width: 0,
            iterations: 1_000_000,
            mu: 1,
            lambda: 4,
            eval_after_iterations: 500,
            nbr_inputs: 0,
            nbr_outputs: 0,
            mutation_type: 0,
            distance_function: 0,
        }
    }
}

} // verus!
