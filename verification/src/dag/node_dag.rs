//! A node of the boolean DAG encoding.

use vstd::prelude::*;
use crate::utils::boolean_functions::{and, nand, nor, or};
use crate::utils::cycle_checker::{acyclic, has_edge, lemma_add_edge_acyclic, reaches, CGPEdges};
use crate::utils::graph::{ascending, bool_fn, Gene, GraphNode};
use crate::utils::node_type::NodeType;
use crate::utils::random::{gen_random_number, random_below};

verus! {

/// A node: its position, role, function and the positions it is connected to.
#[derive(Clone, Copy, Debug)]
pub struct NodeDAG {
    pub position: usize,
    pub node_type: NodeType,
    pub nbr_inputs: usize,
    pub graph_width: usize,
    pub function_id: usize,
    pub connection1: usize,
    pub connection2: usize}

impl GraphNode for NodeDAG {
    open spec fn gene(&self) -> Gene {
        Gene {
            node_type: self.node_type,
            function_id: self.function_id,
            connection1: self.connection1,
            connection2: self.connection2,
            binary: true}
    }

    fn to_gene(&self) -> (g: Gene) {
        Gene {
            node_type: self.node_type,
            function_id: self.function_id,
            connection1: self.connection1,
            connection2: self.connection2,
            binary: true}
    }
}

/// Connection `c` may replace `previous` at the node at `position`: it lies
/// below `upper_range`, is neither `previous` nor the node itself, and does
/// not depend on the node.
pub open spec fn is_candidate(
    g: Seq<Seq<usize>>,
    previous: usize,
    position: usize,
    upper_range: usize,
    c: usize,
) -> bool {
    &&& c < upper_range
    &&& c != previous
    &&& c != position
    &&& !reaches(g, c as int, position as int)
}

/// The graph `g` with the dependency of `position` on `previous` replaced by
/// one on `new`.
pub open spec fn rewired(g: Seq<Seq<usize>>, position: usize, previous: usize, new: usize) -> Seq<Seq<usize>> {
    g.update(
        position as int,
        g[position as int].remove(g[position as int].index_of_first(previous).unwrap()).push(new),
    )
}

impl NodeDAG {
    /// The function is one of the four, and the connections fit the role: none
    /// for an input, two positions before the outputs other than its own for a
    /// computational node, one position before the outputs for an output.
    pub open spec fn links_ok(&self) -> bool {
        &&& self.function_id < 4
        &&& match self.node_type {
            NodeType::InputNode => self.connection1 == usize::MAX && self.connection2 == usize::MAX,
            NodeType::ComputationalNode => {
                &&& self.connection1 < self.nbr_inputs + self.graph_width
                &&& self.connection2 < self.nbr_inputs + self.graph_width
                &&& self.connection1 != self.position
                &&& self.connection2 != self.position
            },
            NodeType::OutputNode => self.connection1 < self.nbr_inputs + self.graph_width
                && self.connection2 == usize::MAX}
    }

    /// The node is wired as its role asks and stands in the region of its role.
    pub open spec fn wf(&self) -> bool {
        &&& self.links_ok()
        &&& self.nbr_inputs + self.graph_width <= usize::MAX
        &&& match self.node_type {
            NodeType::InputNode => self.position < self.nbr_inputs,
            NodeType::ComputationalNode => self.nbr_inputs <= self.position < self.nbr_inputs
                + self.graph_width,
            NodeType::OutputNode => self.nbr_inputs + self.graph_width <= self.position}
    }

    /// The dependencies recorded for the node are its two connections.
    pub open spec fn edges_match(&self, g: Seq<Seq<usize>>) -> bool {
        &&& self.position < g.len()
        &&& (g[self.position as int] =~= seq![self.connection1, self.connection2] || g[self.position as int]
            =~= seq![self.connection2, self.connection1])
    }

    /// `new` is this node after one mutation in the dependency graph `g`: an
    /// output has its connection redrawn; a computational node has its
    /// function redrawn, or one of its connections replaced by a candidate.
    /// The node stays as it is where no other value exists.
    pub open spec fn mutated_to(&self, new: Self, g: Seq<Seq<usize>>) -> bool {
        let range = (self.nbr_inputs + self.graph_width) as usize;
        let upper = (range - 1) as usize;
        match self.node_type {
            NodeType::InputNode => false,
            NodeType::OutputNode => {
                &&& new == (NodeDAG { connection1: new.connection1, ..*self })
                &&& range > 1 ==> new.connection1 != self.connection1 && new.connection1 < range
                &&& range <= 1 ==> new == *self
            },
            NodeType::ComputationalNode => {
                ||| {
                    &&& new == (NodeDAG { connection1: new.connection1, ..*self })
                    &&& is_candidate(g, self.connection1, self.position, upper, new.connection1)
                }
                ||| {
                    &&& new == *self
                    &&& forall|c: usize| !#[trigger] is_candidate(g, self.connection1, self.position, upper, c)
                }
                ||| {
                    &&& new == (NodeDAG { connection2: new.connection2, ..*self })
                    &&& is_candidate(g, self.connection2, self.position, upper, new.connection2)
                }
                ||| {
                    &&& new == *self
                    &&& forall|c: usize| !#[trigger] is_candidate(g, self.connection2, self.position, upper, c)
                }
                ||| {
                    &&& new == (NodeDAG { function_id: new.function_id, ..*self })
                    &&& new.function_id != self.function_id
                    &&& new.function_id < 4
                }
            },
        }
    }

    /// Whether the node is well-formed.
    pub fn check_wf(&self) -> (b: bool)
        ensures
            b == self.wf(),
    {
        let range = match self.nbr_inputs.checked_add(self.graph_width) {
            Some(range) => range,
            None => {
                return false;
            },
        };
        if self.function_id >= 4 {
            return false;
        }
        match self.node_type {
            NodeType::InputNode => self.connection1 == usize::MAX && self.connection2 == usize::MAX
                && self.position < self.nbr_inputs,
            NodeType::ComputationalNode => self.connection1 < range && self.connection2 < range && self.connection1
                != self.position && self.connection2 != self.position && self.nbr_inputs <= self.position
                && self.position < range,
            NodeType::OutputNode => self.connection1 < range && self.connection2 == usize::MAX && range
                <= self.position}
    }

    /// A node at `position` with a random function and random connections to
    /// earlier positions, which a computational node records in `cgp_edges`.
    pub fn new(
        position: usize,
        nbr_inputs: usize,
        graph_width: usize,
        node_type: NodeType,
        cgp_edges: &mut CGPEdges,
    ) -> (r: Self)
        requires
            nbr_inputs + graph_width <= usize::MAX,
            node_type == NodeType::ComputationalNode ==> 0 < position < old(cgp_edges)@.len(),
            node_type == NodeType::OutputNode ==> nbr_inputs + graph_width > 0,
        ensures
            r.position == position,
            r.node_type == node_type,
            r.nbr_inputs == nbr_inputs,
            r.graph_width == graph_width,
            r.function_id < 4,
            match node_type {
                NodeType::InputNode => r.connection1 == usize::MAX && r.connection2 == usize::MAX
                    && final(cgp_edges)@ == old(cgp_edges)@,
                NodeType::ComputationalNode => r.connection1 < position && r.connection2 < position
                    && final(cgp_edges)@ == old(cgp_edges)@.update(
                    position as int,
                    old(cgp_edges)@[position as int].push(r.connection1).push(r.connection2),
                ),
                NodeType::OutputNode => r.connection1 < nbr_inputs + graph_width && r.connection2
                    == usize::MAX && final(cgp_edges)@ == old(cgp_edges)@},
    {
        let function_id = random_below(4);
        let connection1: usize;
        let connection2: usize;
        match node_type {
            NodeType::InputNode => {
                connection1 = usize::MAX;
                connection2 = usize::MAX;
            },
            NodeType::ComputationalNode => {
                connection1 = random_below(position);
                connection2 = random_below(position);
                cgp_edges.add_edge(position, connection1);
                cgp_edges.add_edge(position, connection2);
                assert(cgp_edges@ =~= old(cgp_edges)@.update(
                    position as int,
                    old(cgp_edges)@[position as int].push(connection1).push(connection2),
                ));
            },
            NodeType::OutputNode => {
                connection1 = random_below(nbr_inputs + graph_width);
                connection2 = usize::MAX;
            },
        }
        Self { position, node_type, nbr_inputs, graph_width, function_id, connection1, connection2 }
    }

    /// Applies the function of the node to two columns.
    pub fn execute(&self, conn1_value: &Vec<bool>, conn2_value: &Vec<bool>) -> (r: Vec<bool>)
        requires
            self.node_type != NodeType::InputNode,
            self.function_id < 4,
            conn1_value@.len() == conn2_value@.len(),
        ensures
            r@.len() == conn1_value@.len(),
            forall|i: int| 0 <= i < r@.len() ==> r@[i] == bool_fn(self.function_id, conn1_value@[i], conn2_value@[i]),
    {
        if self.function_id == 0 {
            and(conn1_value, conn2_value)
        } else if self.function_id == 1 {
            or(conn1_value, conn2_value)
        } else if self.function_id == 2 {
            nand(conn1_value, conn2_value)
        } else {
            nor(conn1_value, conn2_value)
        }
    }

    /// Applies one mutation. A computational node keeps `cgp_edges` in step
    /// with its connections, and takes no connection that would close a cycle.
    pub fn mutate(&mut self, cgp_edges: &mut CGPEdges)
        requires
            old(self).wf(),
            old(self).node_type != NodeType::InputNode,
            old(self).node_type == NodeType::ComputationalNode ==> {
                &&& old(cgp_edges).wf()
                &&& old(cgp_edges)@.len() == old(self).nbr_inputs + old(self).graph_width
                &&& old(self).edges_match(old(cgp_edges)@)
                &&& acyclic(old(cgp_edges)@)
            },
        ensures
            final(self).wf(),
            old(self).mutated_to(*final(self), old(cgp_edges)@),
            final(cgp_edges)@.len() == old(cgp_edges)@.len(),
            forall|a: int|
                0 <= a < old(cgp_edges)@.len() && a != old(self).position ==> final(cgp_edges)@[a] == old(cgp_edges)@[a],
            old(self).node_type == NodeType::OutputNode ==> final(cgp_edges)@ == old(cgp_edges)@,
            old(self).node_type == NodeType::ComputationalNode ==> {
                &&& final(cgp_edges).wf()
                &&& final(self).edges_match(final(cgp_edges)@)
                &&& acyclic(final(cgp_edges)@)
            },
    {
        match self.node_type {
            NodeType::OutputNode => self.mutate_output_node(),
            _ => self.mutate_computational_node(cgp_edges)}
    }

    /// Replaces `connection` of the node at `position` by a random candidate
    /// below `upper_range`, if there is one, and records the change in
    /// `cgp_edges`. Says whether there was one.
    fn mutate_connection(connection: &mut usize, position: usize, upper_range: usize, cgp_edges: &mut CGPEdges) -> (changed:
        bool)
        requires
            old(cgp_edges).wf(),
            position < old(cgp_edges)@.len(),
            upper_range <= old(cgp_edges)@.len(),
            old(cgp_edges)@[position as int].contains(*old(connection)),
            acyclic(old(cgp_edges)@),
        ensures
            changed ==> is_candidate(old(cgp_edges)@, *old(connection), position, upper_range, *final(connection))
                && final(cgp_edges)@ == rewired(old(cgp_edges)@, position, *old(connection), *final(connection)),
            !changed ==> *final(connection) == *old(connection) && final(cgp_edges)@ == old(cgp_edges)@
                && forall|c: usize| !is_candidate(old(cgp_edges)@, *old(connection), position, upper_range, c),
            final(cgp_edges).wf(),
            acyclic(final(cgp_edges)@),
    {
        let ghost g = cgp_edges@;
        match gen_random_connection(*connection, position, upper_range, cgp_edges) {
            Some(new_connection_id) => {
                cgp_edges.remove_edge(position, *connection);
                cgp_edges.add_edge(position, new_connection_id);
                proof {
                    let list = g[position as int];
                    let first = list.index_of_first(*old(connection)).unwrap();
                    list.index_of_first_ensures(*old(connection));
                    let kept = list.remove(first);
                    assert(cgp_edges@ =~= rewired(g, position, *old(connection), new_connection_id));
                    let more = cgp_edges@;
                    assert(more[position as int] == kept.push(new_connection_id));
                    assert forall|x: int, y: int| has_edge(more, x, y) implies has_edge(g, x, y) || (x == position
                        && y == new_connection_id) by {
                        let k = choose|k: int| 0 <= k < more[x].len() && #[trigger] more[x][k] == y;
                        if x == position {
                            if k < kept.len() {
                                let k2 = if k < first { k } else { k + 1 };
                                assert(list[k2] == y);
                            }
                        } else {
                            assert(g[x][k] == y);
                        }
                    }
                    lemma_add_edge_acyclic(g, more, position as int, new_connection_id as int);
                    assert forall|a: int, k: int| 0 <= a < more.len() && 0 <= k < more[a].len() implies (
                    #[trigger] more[a][k]) < more.len() by {
                        if a == position {
                            if k < kept.len() {
                                let k2 = if k < first { k } else { k + 1 };
                                assert(list[k2] == more[a][k]);
                            }
                        } else {
                            assert(g[a][k] == more[a][k]);
                        }
                    }
                }
                *connection = new_connection_id;
                true
            },
            None => false}
    }

    fn mutate_function(&mut self)
        requires
            old(self).function_id < 4,
        ensures
            *final(self) == (NodeDAG { function_id: final(self).function_id, ..*old(self) }),
            final(self).function_id != old(self).function_id,
            final(self).function_id < 4,
    {
        self.function_id = gen_random_function_id(self.function_id, 4);
    }

    fn mutate_output_node(&mut self)
        requires
            old(self).wf(),
            old(self).node_type == NodeType::OutputNode,
        ensures
            final(self).wf(),
            forall|g: Seq<Seq<usize>>| old(self).mutated_to(*final(self), g),
    {
        let range = self.nbr_inputs + self.graph_width;
        if range > 1 {
            self.connection1 = gen_random_number(self.connection1, range);
        }
    }

    fn mutate_computational_node(&mut self, cgp_edges: &mut CGPEdges)
        requires
            old(self).wf(),
            old(self).node_type == NodeType::ComputationalNode,
            old(cgp_edges).wf(),
            old(cgp_edges)@.len() == old(self).nbr_inputs + old(self).graph_width,
            old(self).edges_match(old(cgp_edges)@),
            acyclic(old(cgp_edges)@),
        ensures
            final(self).wf(),
            old(self).mutated_to(*final(self), old(cgp_edges)@),
            final(cgp_edges)@.len() == old(cgp_edges)@.len(),
            forall|a: int|
                0 <= a < old(cgp_edges)@.len() && a != old(self).position ==> final(cgp_edges)@[a] == old(cgp_edges)@[a],
            final(cgp_edges).wf(),
            final(self).edges_match(final(cgp_edges)@),
            acyclic(final(cgp_edges)@),
    {
        let ghost g = cgp_edges@;
        let ghost list = g[self.position as int];
        let rand_nbr = random_below(3);
        let position = self.position;
        let upper_range = self.nbr_inputs + self.graph_width - 1;
        if rand_nbr == 0 {
            proof {
                assert(list[0] == self.connection1 || list[1] == self.connection1);
                list.index_of_first_ensures(self.connection1);
            }
            let mut connection = self.connection1;
            let changed = Self::mutate_connection(&mut connection, position, upper_range, cgp_edges);
            self.connection1 = connection;
            proof {
                if changed {
                    let first = list.index_of_first(old(self).connection1).unwrap();
                    assert(list.remove(first) =~= seq![old(self).connection2]);
                    assert(cgp_edges@[position as int] =~= seq![self.connection2, self.connection1]);
                }
            }
        } else if rand_nbr == 1 {
            proof {
                assert(list[0] == self.connection2 || list[1] == self.connection2);
                list.index_of_first_ensures(self.connection2);
            }
            let mut connection = self.connection2;
            let changed = Self::mutate_connection(&mut connection, position, upper_range, cgp_edges);
            self.connection2 = connection;
            proof {
                if changed {
                    let first = list.index_of_first(old(self).connection2).unwrap();
                    assert(list.remove(first) =~= seq![old(self).connection1]);
                    assert(cgp_edges@[position as int] =~= seq![self.connection1, self.connection2]);
                }
            }
        } else {
            self.mutate_function();
        }
    }
}

/// A function other than `excluded`, each with the same chance.
fn gen_random_function_id(excluded: usize, upper_range: usize) -> (r: usize)
    requires
        upper_range > 1,
    ensures
        r < upper_range,
        r != excluded,
{
    gen_random_number(excluded, upper_range)
}

/// The candidates to replace `previous_connection` at the node at `position`,
/// in ascending order.
pub fn candidate_connections(
    previous_connection: usize,
    position: usize,
    upper_range: usize,
    cgp_edges: &mut CGPEdges,
) -> (r: Vec<usize>)
    requires
        old(cgp_edges).wf(),
        upper_range <= old(cgp_edges)@.len(),
    ensures
        final(cgp_edges)@ == old(cgp_edges)@,
        ascending(r@),
        forall|c: usize|
            r@.contains(c) <==> is_candidate(old(cgp_edges)@, previous_connection, position, upper_range, c),
{
    let ghost g = cgp_edges@;
    let mut r: Vec<usize> = Vec::new();
    let mut c: usize = 0;
    while c < upper_range
        invariant
            cgp_edges@ == g,
            cgp_edges.wf(),
            upper_range <= g.len(),
            c <= upper_range,
            ascending(r@),
            forall|k: int| 0 <= k < r@.len() ==> (#[trigger] r@[k]) < c,
            forall|x: usize| r@.contains(x) ==> is_candidate(g, previous_connection, position, upper_range, x),
            forall|x: usize|
                x < c && is_candidate(g, previous_connection, position, upper_range, x) ==> r@.contains(x),
        decreases upper_range - c,
    {
        let ghost before = r@;
        if c != previous_connection && c != position {
            if !cgp_edges.check_cycle(position, c) {
                r.push(c);
                proof {
                    assert(r@[before.len() as int] == c);
                    assert forall|x: usize| r@.contains(x) implies is_candidate(
                        g,
                        previous_connection,
                        position,
                        upper_range,
                        x,
                    ) by {
                        let k = choose|k: int| 0 <= k < r@.len() && r@[k] == x;
                        if k < before.len() {
                            assert(before.contains(x));
                        }
                    }
                }
            }
        }
        proof {
            assert forall|x: usize|
                x < c + 1 && is_candidate(g, previous_connection, position, upper_range, x) implies r@.contains(
                x,
            ) by {
                if x < c {
                    assert(before.contains(x));
                    let k = choose|k: int| 0 <= k < before.len() && before[k] == x;
                    assert(r@[k] == x);
                } else {
                    assert(r@[before.len() as int] == c);
                }
            }
        }
        c += 1;
    }
    r
}

/// One of the candidates to replace `previous_connection` at the node at
/// `position`, each with the same chance, or `None` where there is none.
fn gen_random_connection(
    previous_connection: usize,
    position: usize,
    upper_range: usize,
    cgp_edges: &mut CGPEdges,
) -> (r: Option<usize>)
    requires
        old(cgp_edges).wf(),
        upper_range <= old(cgp_edges)@.len(),
    ensures
        final(cgp_edges)@ == old(cgp_edges)@,
        match r {
            Some(c) => is_candidate(old(cgp_edges)@, previous_connection, position, upper_range, c),
            None => forall|c: usize| !is_candidate(old(cgp_edges)@, previous_connection, position, upper_range, c)},
{
    let candidates = candidate_connections(previous_connection, position, upper_range, cgp_edges);
    if candidates.len() == 0 {
        assert forall|c: usize| !is_candidate(cgp_edges@, previous_connection, position, upper_range, c) by {
            assert(!candidates@.contains(c));
        }
        None
    } else {
        let i = random_below(candidates.len());
        assert(candidates@.contains(candidates@[i as int]));
        Some(candidates[i])
    }
}

} // verus!
