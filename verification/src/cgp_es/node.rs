//! A node of the numeric array encoding: one of fourteen functions, the first
//! four of which read both connections and the others only the first.

use vstd::prelude::*;
use crate::utils::graph::{Gene, GraphNode};
use crate::utils::node_type::NodeType;
use crate::utils::random::{gen_random_number, random_below};

verus! {

/// A node: its position, role, function and the positions it is connected to.
#[derive(Clone, Copy, Debug)]
pub struct Node {
    pub position: usize,
    pub node_type: NodeType,
    pub nbr_inputs: usize,
    pub graph_width: usize,
    pub function_id: usize,
    pub connection1: usize,
    pub connection2: usize,
}

impl GraphNode for Node {
    open spec fn gene(&self) -> Gene {
        Gene {
            node_type: self.node_type,
            function_id: self.function_id,
            connection1: self.connection1,
            connection2: self.connection2,
            binary: self.function_id < NBR_BINARY_FUNCTIONS,
        }
    }

    fn to_gene(&self) -> (g: Gene) {
        Gene {
            node_type: self.node_type,
            function_id: self.function_id,
            connection1: self.connection1,
            connection2: self.connection2,
            binary: self.function_id < NBR_BINARY_FUNCTIONS,
        }
    }
}

/// The number of node functions.
pub const NBR_FUNCTIONS: usize = 14;

/// The number of node functions that read both connections; they come first.
pub const NBR_BINARY_FUNCTIONS: usize = 4;

impl Node {
    /// The function is one of the fourteen, and the connections fit the role: none
    /// for an input, two earlier positions for a computational node, one
    /// position before the outputs for an output.
    pub open spec fn links_ok(&self) -> bool {
        &&& self.function_id < NBR_FUNCTIONS
        &&& match self.node_type {
            NodeType::InputNode => self.connection1 == usize::MAX && self.connection2 == usize::MAX,
            NodeType::ComputationalNode => self.connection1 < self.position && self.connection2
                < self.position,
            NodeType::OutputNode => self.connection1 < self.nbr_inputs + self.graph_width
                && self.connection2 == usize::MAX,
        }
    }

    /// The node is wired as its role asks and stands in the region of its role.
    pub open spec fn wf(&self) -> bool {
        &&& self.links_ok()
        &&& self.nbr_inputs + self.graph_width <= usize::MAX
        &&& match self.node_type {
            NodeType::InputNode => self.position < self.nbr_inputs,
            NodeType::ComputationalNode => self.nbr_inputs <= self.position < self.nbr_inputs
                + self.graph_width,
            NodeType::OutputNode => self.nbr_inputs + self.graph_width <= self.position,
        }
    }

    /// `new` is this node after one mutation: an output has its connection
    /// redrawn; a computational node has one of its two connections or its
    /// function redrawn. The redrawn value differs from the old one wherever
    /// another value exists.
    pub open spec fn mutated_to(&self, new: Self) -> bool {
        match self.node_type {
            NodeType::InputNode => false,
            NodeType::OutputNode => {
                &&& new == (Node { connection1: new.connection1, ..*self })
                &&& self.nbr_inputs + self.graph_width > 1 ==> new.connection1 != self.connection1
                    && new.connection1 < self.nbr_inputs + self.graph_width
                &&& self.nbr_inputs + self.graph_width <= 1 ==> new.connection1 == 0
            },
            NodeType::ComputationalNode => {
                ||| {
                    &&& new == (Node { connection1: new.connection1, ..*self })
                    &&& self.position > 1 ==> new.connection1 != self.connection1 && new.connection1
                        < self.position
                    &&& self.position <= 1 ==> new.connection1 == 0
                }
                ||| {
                    &&& new == (Node { connection2: new.connection2, ..*self })
                    &&& self.position > 1 ==> new.connection2 != self.connection2 && new.connection2
                        < self.position
                    &&& self.position <= 1 ==> new.connection2 == 0
                }
                ||| {
                    &&& new == (Node { function_id: new.function_id, ..*self })
                    &&& new.function_id != self.function_id
                    &&& new.function_id < NBR_FUNCTIONS
                }
            },
        }
    }

    /// Whether the node is well-formed.
    pub fn check_wf(&self) -> (b: bool)
        ensures
            b == self.wf(),
    {
        let range = match self.nbr_inputs.checked_add(self.graph_width) {
            Some(range) => range,
            None => {
                return false;
            },
        };
        if self.function_id >= NBR_FUNCTIONS {
            return false;
        }
        match self.node_type {
            NodeType::InputNode => self.connection1 == usize::MAX && self.connection2 == usize::MAX
                && self.position < self.nbr_inputs,
            NodeType::ComputationalNode => self.connection1 < self.position && self.connection2 < self.position
                && self.nbr_inputs <= self.position && self.position < range,
            NodeType::OutputNode => self.connection1 < range && self.connection2 == usize::MAX && range
                <= self.position,
        }
    }

    /// A node at `position` with a random function and random connections.
    pub fn new(position: usize, nbr_inputs: usize, graph_width: usize, node_type: NodeType) -> (r: Self)
        requires
            nbr_inputs + graph_width <= usize::MAX,
            node_type == NodeType::ComputationalNode ==> position > 0,
            node_type == NodeType::OutputNode ==> nbr_inputs + graph_width > 0,
        ensures
            r.position == position,
            r.node_type == node_type,
            r.nbr_inputs == nbr_inputs,
            r.graph_width == graph_width,
            r.links_ok(),
    {
        let function_id = random_below(NBR_FUNCTIONS);
        let connection1: usize;
        let connection2: usize;
        match node_type {
            NodeType::InputNode => {
                connection1 = usize::MAX;
                connection2 = usize::MAX;
            },
            NodeType::ComputationalNode => {
                connection1 = random_below(position);
                connection2 = random_below(position);
            },
            NodeType::OutputNode => {
                connection1 = random_below(nbr_inputs + graph_width);
                connection2 = usize::MAX;
            },
        }
        Self { position, node_type, nbr_inputs, graph_width, function_id, connection1, connection2 }
    }

    /// Applies one mutation.
    pub fn mutate(&mut self)
        requires
            old(self).wf(),
            old(self).node_type != NodeType::InputNode,
        ensures
            final(self).wf(),
            old(self).mutated_to(*final(self)),
    {
        match self.node_type {
            NodeType::OutputNode => self.mutate_output_node(),
            _ => self.mutate_computational_node(),
        }
    }

    fn mutate_function(&mut self)
        requires
            old(self).function_id < NBR_FUNCTIONS,
        ensures
            *final(self) == (Node { function_id: final(self).function_id, ..*old(self) }),
            final(self).function_id != old(self).function_id,
            final(self).function_id < NBR_FUNCTIONS,
    {
        self.function_id = gen_random_number(self.function_id, NBR_FUNCTIONS);
    }

    fn mutate_output_node(&mut self)
        requires
            old(self).wf(),
            old(self).node_type == NodeType::OutputNode,
        ensures
            final(self).wf(),
            old(self).mutated_to(*final(self)),
    {
        self.connection1 = gen_random_number(self.connection1, self.graph_width + self.nbr_inputs);
    }

    fn mutate_computational_node(&mut self)
        requires
            old(self).wf(),
            old(self).node_type == NodeType::ComputationalNode,
        ensures
            final(self).wf(),
            old(self).mutated_to(*final(self)),
    {
        let rand_nbr = random_below(3);
        if rand_nbr == 0 {
            self.connection1 = gen_random_number(self.connection1, self.position);
        } else if rand_nbr == 1 {
            self.connection2 = gen_random_number(self.connection2, self.position);
        } else {
            self.mutate_function();
        }
    }
}

} // verus!
