//! A node of the reorderable boolean encoding.

use vstd::prelude::*;
use crate::utils::boolean_functions::{and, nand, nor, or};
use crate::utils::graph::{bool_fn, Gene, GraphNode};
use crate::utils::node_type::NodeType;
use crate::utils::random::{gen_random_number, random_below};

verus! {

/// A node: its position, role, function and the positions it is connected to.
#[derive(Clone, Copy, Debug)]
pub struct NodeReorder {
    pub position: usize,
    pub node_type: NodeType,
    pub nbr_inputs: usize,
    pub graph_width: usize,
    pub function_id: usize,
    pub connection1: usize,
    pub connection2: usize,
}

impl GraphNode for NodeReorder {
    open spec fn gene(&self) -> Gene {
        Gene {
            node_type: self.node_type,
            function_id: self.function_id,
            connection1: self.connection1,
            connection2: self.connection2,
            binary: true,
        }
    }

    fn to_gene(&self) -> (g: Gene) {
        Gene {
            node_type: self.node_type,
            function_id: self.function_id,
            connection1: self.connection1,
            connection2: self.connection2,
            binary: true,
        }
    }
}

impl NodeReorder {
    /// The function is one of the four, and the connections fit the role: none
    /// for an input, two earlier positions for a computational node, one
    /// position before the outputs for an output.
    pub open spec fn links_ok(&self) -> bool {
        &&& self.function_id < 4
        &&& match self.node_type {
            NodeType::InputNode => self.connection1 == usize::MAX && self.connection2 == usize::MAX,
            NodeType::ComputationalNode => self.connection1 < self.position && self.connection2
                < self.position,
            NodeType::OutputNode => self.connection1 < self.nbr_inputs + self.graph_width
                && self.connection2 == usize::MAX,
        }
    }

    /// The node is wired as its role asks and stands in the region of its role.
    pub open spec fn wf(&self) -> bool {
        &&& self.links_ok()
        &&& self.nbr_inputs + self.graph_width <= usize::MAX
        &&& match self.node_type {
            NodeType::InputNode => self.position < self.nbr_inputs,
            NodeType::ComputationalNode => self.nbr_inputs <= self.position < self.nbr_inputs
                + self.graph_width,
            NodeType::OutputNode => self.nbr_inputs + self.graph_width <= self.position,
        }
    }

    /// `new` is this node after one mutation: an output has its connection
    /// redrawn; a computational node has one of its two connections or its
    /// function redrawn. The redrawn value differs from the old one wherever
    /// another value exists.
    pub open spec fn mutated_to(&self, new: Self) -> bool {
        match self.node_type {
            NodeType::InputNode => false,
            NodeType::OutputNode => {
                &&& new == (NodeReorder { connection1: new.connection1, ..*self })
                &&& self.nbr_inputs + self.graph_width > 1 ==> new.connection1 != self.connection1
                    && new.connection1 < self.nbr_inputs + self.graph_width
                &&& self.nbr_inputs + self.graph_width <= 1 ==> new.connection1 == 0
            },
            NodeType::ComputationalNode => {
                ||| {
                    &&& new == (NodeReorder { connection1: new.connection1, ..*self })
                    &&& self.position > 1 ==> new.connection1 != self.connection1 && new.connection1
                        < self.position
                    &&& self.position <= 1 ==> new.connection1 == 0
                }
                ||| {
                    &&& new == (NodeReorder { connection2: new.connection2, ..*self })
                    &&& self.position > 1 ==> new.connection2 != self.connection2 && new.connection2
                        < self.position
                    &&& self.position <= 1 ==> new.connection2 == 0
                }
                ||| {
                    &&& new == (NodeReorder { function_id: new.function_id, ..*self })
                    &&& new.function_id != self.function_id
                    &&& new.function_id < 4
                }
            },
        }
    }

    /// Whether the node is well-formed.
    pub fn check_wf(&self) -> (b: bool)
        ensures
            b == self.wf(),
    {
        let range = match self.nbr_inputs.checked_add(self.graph_width) {
            Some(range) => range,
            None => {
                return false;
            },
        };
        if self.function_id >= 4 {
            return false;
        }
        match self.node_type {
            NodeType::InputNode => self.connection1 == usize::MAX && self.connection2 == usize::MAX
                && self.position < self.nbr_inputs,
            NodeType::ComputationalNode => self.connection1 < self.position && self.connection2 < self.position
                && self.nbr_inputs <= self.position && self.position < range,
            NodeType::OutputNode => self.connection1 < range && self.connection2 == usize::MAX && range
                <= self.position,
        }
    }

    /// A node at `position` with a random function and random connections.
    pub fn new(position: usize, nbr_inputs: usize, graph_width: usize, node_type: NodeType) -> (r: Self)
        requires
            nbr_inputs + graph_width <= usize::MAX,
            node_type == NodeType::ComputationalNode ==> position > 0,
            node_type == NodeType::OutputNode ==> nbr_inputs + graph_width > 0,
        ensures
            r.position == position,
            r.node_type == node_type,
            r.nbr_inputs == nbr_inputs,
            r.graph_width == graph_width,
            r.links_ok(),
    {
        let function_id = random_below(4);
        let connection1: usize;
        let connection2: usize;
        match node_type {
            NodeType::InputNode => {
                connection1 = usize::MAX;
                connection2 = usize::MAX;
            },
            NodeType::ComputationalNode => {
                connection1 = random_below(position);
                connection2 = random_below(position);
            },
            NodeType::OutputNode => {
                connection1 = random_below(nbr_inputs + graph_width);
                connection2 = usize::MAX;
            },
        }
        Self { position, node_type, nbr_inputs, graph_width, function_id, connection1, connection2 }
    }

    /// Applies the function of the node to two columns.
    pub fn execute(&self, conn1_value: &Vec<bool>, conn2_value: &Vec<bool>) -> (r: Vec<bool>)
        requires
            self.node_type != NodeType::InputNode,
            self.function_id < 4,
            conn1_value@.len() == conn2_value@.len(),
        ensures
            r@.len() == conn1_value@.len(),
            forall|i: int| 0 <= i < r@.len() ==> r@[i] == bool_fn(self.function_id, conn1_value@[i], conn2_value@[i]),
    {
        if self.function_id == 0 {
            and(conn1_value, conn2_value)
        } else if self.function_id == 1 {
            or(conn1_value, conn2_value)
        } else if self.function_id == 2 {
            nand(conn1_value, conn2_value)
        } else {
            nor(conn1_value, conn2_value)
        }
    }

    /// Applies one mutation.
    pub fn mutate(&mut self)
        requires
            old(self).wf(),
            old(self).node_type != NodeType::InputNode,
        ensures
            final(self).wf(),
            old(self).mutated_to(*final(self)),
    {
        match self.node_type {
            NodeType::OutputNode => self.mutate_output_node(),
            _ => self.mutate_computational_node(),
        }
    }

    fn mutate_function(&mut self)
        requires
            old(self).function_id < 4,
        ensures
            *final(self) == (NodeReorder { function_id: final(self).function_id, ..*old(self) }),
            final(self).function_id != old(self).function_id,
            final(self).function_id < 4,
    {
        self.function_id = gen_random_number(self.function_id, 4);
    }

    fn mutate_output_node(&mut self)
        requires
            old(self).wf(),
            old(self).node_type == NodeType::OutputNode,
        ensures
            final(self).wf(),
            old(self).mutated_to(*final(self)),
    {
        self.connection1 = gen_random_number(self.connection1, self.graph_width + self.nbr_inputs);
    }

    fn mutate_computational_node(&mut self)
        requires
            old(self).wf(),
            old(self).node_type == NodeType::ComputationalNode,
        ensures
            final(self).wf(),
            old(self).mutated_to(*final(self)),
    {
        let rand_nbr = random_below(3);
        if rand_nbr == 0 {
            self.connection1 = gen_random_number(self.connection1, self.position);
        } else if rand_nbr == 1 {
            self.connection2 = gen_random_number(self.connection2, self.position);
        } else {
            self.mutate_function();
        }
    }

    /// Moves the node to `new_pos`. With `mutate_new_connections`, a connection
    /// that would no longer point to an earlier position is redrawn among the
    /// positions before `new_pos - 1`.
    pub fn set_new_position(&mut self, new_pos: usize, mutate_new_connections: bool)
        requires
            mutate_new_connections ==> new_pos > 0,
        ensures
            final(self).position == new_pos,
            final(self).node_type == old(self).node_type,
            final(self).nbr_inputs == old(self).nbr_inputs,
            final(self).graph_width == old(self).graph_width,
            final(self).function_id == old(self).function_id,
            !mutate_new_connections || old(self).connection1 < new_pos
                ==> final(self).connection1 == old(self).connection1,
            !mutate_new_connections || old(self).connection2 < new_pos
                ==> final(self).connection2 == old(self).connection2,
            mutate_new_connections ==> final(self).connection1 < new_pos && final(self).connection2 < new_pos,
            mutate_new_connections && old(self).connection1 >= new_pos && new_pos > 2
                ==> final(self).connection1 < new_pos - 1,
            mutate_new_connections && old(self).connection2 >= new_pos && new_pos > 2
                ==> final(self).connection2 < new_pos - 1,
    {
        if mutate_new_connections {
            if self.connection1 >= new_pos {
                self.connection1 = gen_random_number(self.connection1, new_pos - 1);
            }
            if self.connection2 >= new_pos {
                self.connection2 = gen_random_number(self.connection2, new_pos - 1);
            }
        }
        self.position = new_pos;
    }

    /// Connects the first connection to `new_con`.
    pub fn set_connection1(&mut self, new_con: usize)
        ensures
            *final(self) == (NodeReorder { connection1: new_con, ..*old(self) }),
    {
        self.connection1 = new_con;
    }

    /// Connects the second connection to `new_con`.
    pub fn set_connection2(&mut self, new_con: usize)
        ensures
            *final(self) == (NodeReorder { connection2: new_con, ..*old(self) }),
    {
        self.connection2 = new_con;
    }
}

} // verus!
