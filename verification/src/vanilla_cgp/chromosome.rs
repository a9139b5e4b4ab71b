//! A boolean graph in the plain array encoding: every node reads positions
//! before its own, and nodes never move.

use vstd::prelude::*;
use crate::global_params::CgpParameters;
use crate::reorder::node_reorder::NodeReorder;
use crate::utils::boolean_grid::{
    active_fits, active_order, check_nodes, check_outputs, evaluate_grid, grid_matches,
    is_mutation_of_each, is_mutation_until_active, matrices_fit, mutate_each, mutate_until_active,
    nodes_wf, outputs_wf, random_grid,
};
use crate::utils::fitness_metrics::rows;
use crate::utils::random::MUTATION_DRAWS;

verus! {

/// A graph of the boolean array encoding: the nodes by position, the
/// positions of the outputs, and the cached positions of the active nodes.
pub struct Chromosome {
    pub params: CgpParameters,
    pub nodes_grid: Vec<NodeReorder>,
    pub output_node_ids: Vec<usize>,
    pub active_nodes: Option<Vec<usize>>,
}

impl Clone for Chromosome {
    fn clone(&self) -> (r: Self)
        ensures
            r.same_as(self),
    {
        let nodes_grid = self.nodes_grid.clone();
        let output_node_ids = self.output_node_ids.clone();
        let active_nodes = match &self.active_nodes {
            Some(active) => {
                let copy = active.clone();
                assert(copy@ =~= active@);
                Some(copy)
            },
            None => None,
        };
        assert(nodes_grid@ =~= self.nodes_grid@);
        assert(output_node_ids@ =~= self.output_node_ids@);
        Self { params: self.params, nodes_grid, output_node_ids, active_nodes }
    }
}

impl Chromosome {
    /// The two graphs hold the same parameters, nodes, outputs and cache.
    pub open spec fn same_as(&self, other: &Self) -> bool {
        &&& self.params == other.params
        &&& self.nodes_grid@ == other.nodes_grid@
        &&& self.output_node_ids@ == other.output_node_ids@
        &&& self.active_nodes is Some == other.active_nodes is Some
        &&& self.active_nodes is Some ==> self.active_nodes->0@ == other.active_nodes->0@
    }

    /// The grid holds inputs, then computational nodes, then outputs, each node
    /// at its position and wired as its role asks.
    pub open spec fn wf(&self) -> bool {
        &&& nodes_wf(self.params, self.nodes_grid@)
        &&& outputs_wf(self.params, self.output_node_ids@)
    }

    /// The cached list of active nodes is there and fits the grid: ascending,
    /// holding exactly the positions that influence an output.
    pub open spec fn active_is_current(&self) -> bool {
        &&& self.active_nodes matches Some(active)
        &&& active_fits(self.nodes_grid@, self.output_node_ids@, active@)
    }

    /// `other` has the parameters, the outputs and the cached active nodes of
    /// this graph.
    pub open spec fn same_frame(&self, other: &Self) -> bool {
        &&& self.params == other.params
        &&& self.output_node_ids@ == other.output_node_ids@
        &&& self.active_nodes == other.active_nodes
    }

    /// The number of bits in which the outputs agree with `labels` on `inputs`.
    pub open spec fn spec_evaluate(&self, inputs: Seq<Seq<bool>>, labels: Seq<Seq<bool>>) -> nat {
        grid_matches(self.params, self.nodes_grid@, inputs, labels)
    }

    /// Whether the graph is well-formed.
    pub fn check_wf(&self) -> (b: bool)
        ensures
            b == self.wf(),
    {
        if !check_nodes(&self.params, &self.nodes_grid) {
            return false;
        }
        assert(self.params.total() == self.nodes_grid.len());
        check_outputs(&self.params, &self.output_node_ids)
    }

    /// A graph of random nodes.
    pub fn new(params: CgpParameters) -> (r: Self)
        requires
            params.wf(),
        ensures
            r.wf(),
            r.params == params,
            r.active_nodes is None,
    {
        let (nodes_grid, output_node_ids) = random_grid(&params);
        Self { params, nodes_grid, output_node_ids, active_nodes: None }
    }

    /// Evaluates the graph on every sample of `inputs` and counts the output
    /// bits that agree with `labels`.
    pub fn evaluate(&mut self, inputs: &Vec<Vec<bool>>, labels: &Vec<Vec<bool>>) -> (matches: usize)
        requires
            old(self).wf(),
            matrices_fit(old(self).params, inputs@, labels@),
        ensures
            final(self).wf(),
            final(self).params == old(self).params,
            final(self).nodes_grid@ == old(self).nodes_grid@,
            final(self).output_node_ids@ == old(self).output_node_ids@,
            final(self).active_is_current(),
            matches == old(self).spec_evaluate(rows(inputs@), rows(labels@)),
            matches <= inputs@.len() * old(self).params.nbr_outputs,
    {
        self.get_active_nodes_id();
        match &self.active_nodes {
            Some(active) => evaluate_grid(
                &self.params,
                &self.nodes_grid,
                &self.output_node_ids,
                active,
                inputs,
                labels,
            ),
            None => 0,
        }
    }

    /// Finds the nodes that influence an output and caches their positions in
    /// ascending order, which is an order in which they can be evaluated.
    pub fn get_active_nodes_id(&mut self)
        requires
            old(self).wf(),
        ensures
            final(self).wf(),
            final(self).params == old(self).params,
            final(self).nodes_grid@ == old(self).nodes_grid@,
            final(self).output_node_ids@ == old(self).output_node_ids@,
            final(self).active_is_current(),
    {
        let active = active_order(&self.params, &self.nodes_grid, &self.output_node_ids);
        self.active_nodes = Some(active);
    }

    /// Mutates nodes drawn at random among the computational nodes and outputs
    /// until a drawn node stands in the cached list of active nodes, and names
    /// that node. Where `usize::MAX` draws have missed, the first
    /// computational node or output of the list is mutated and named. None is
    /// named, and nothing is mutated, only where the list holds no
    /// computational node and no output.
    pub fn mutate_single(&mut self) -> (hit: Option<usize>)
        requires
            old(self).wf(),
            old(self).active_nodes is Some,
        ensures
            final(self).wf(),
            final(self).same_frame(old(self)),
            forall|v: int|
                0 <= v < old(self).params.nbr_inputs ==> final(self).nodes_grid@[v] == old(self).nodes_grid@[v],
            hit is Some <==> exists|v: usize|
                old(self).params.nbr_inputs <= v < old(self).nodes_grid@.len() && old(self).active_nodes->0@.contains(
                    v,
                ),
            hit is None ==> final(self).nodes_grid@ == old(self).nodes_grid@,
            hit matches Some(v) ==> old(self).params.nbr_inputs <= v < old(self).nodes_grid@.len() && old(
                self,
            ).active_nodes->0@.contains(v),
            exists|grids: Seq<Seq<NodeReorder>>, draws: Seq<usize>| #[trigger]
                is_mutation_until_active(
                    old(self).params,
                    old(self).nodes_grid@,
                    final(self).nodes_grid@,
                    old(self).active_nodes->0@,
                    hit,
                    grids,
                    draws,
                ),
    {
        assert(self.params.total() == self.nodes_grid.len());
        match &self.active_nodes {
            Some(active) => mutate_until_active(&self.params, &mut self.nodes_grid, active),
            None => None,
        }
    }

    /// Mutates each computational node and output with a chance of
    /// `threshold` in `MUTATION_DRAWS`: none where `threshold` is 0, each of
    /// them from `MUTATION_DRAWS` on. Whatever the chance, a node stays as it
    /// was or is mutated once.
    pub fn mutate_prob(&mut self, threshold: u32)
        requires
            old(self).wf(),
        ensures
            final(self).wf(),
            final(self).same_frame(old(self)),
            forall|v: int|
                0 <= v < old(self).params.nbr_inputs ==> final(self).nodes_grid@[v] == old(self).nodes_grid@[v],
            threshold == 0 ==> final(self).nodes_grid@ == old(self).nodes_grid@,
            threshold >= MUTATION_DRAWS ==> forall|v: int|
                old(self).params.nbr_inputs <= v < old(self).nodes_grid@.len() ==> (
                #[trigger] old(self).nodes_grid@[v]).mutated_to(final(self).nodes_grid@[v]),
            is_mutation_of_each(old(self).params, old(self).nodes_grid@, final(self).nodes_grid@, threshold),
    {
        assert(self.params.total() == self.nodes_grid.len());
        mutate_each(&self.params, &mut self.nodes_grid, threshold);
    }
}

} // verus!
