//! The role a node plays in a graph.

use vstd::prelude::*;

verus! {

/// Role tag of a node.
#[derive(Clone, Copy, PartialEq, Eq, Structural, Debug)]
pub enum NodeType {
    InputNode,
    ComputationalNode,
    OutputNode,
}

impl NodeType {
    /// The characters of the printed name of a role.
    pub open spec fn spec_name(self) -> Seq<char> {
        match self {
            NodeType::InputNode => "Input_Node"@,
            NodeType::ComputationalNode => "Computational_Node"@,
            NodeType::OutputNode => "Output_Node"@,
        }
    }

    /// The printed name of the role.
    pub fn name(&self) -> (s: &'static str)
        ensures
            s@ == self.spec_name(),
    {
        match self {
            NodeType::InputNode => "Input_Node",
            NodeType::ComputationalNode => "Computational_Node",
            NodeType::OutputNode => "Output_Node",
        }
    }
}

} // verus!
