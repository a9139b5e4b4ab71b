//! A boolean graph in the DAG encoding: a computational node may read any
//! input or computational node, as long as no node comes to depend on itself.

use vstd::prelude::*;
use crate::dag::node_dag::NodeDAG;
use crate::global_params::CgpParameters;
use crate::utils::cycle_checker::{
    acyclic, has_edge, is_walk, lemma_backward_acyclic, reaches, CGPEdges,
};
use crate::utils::evaluation::{evaluate_outputs, output_values};
use crate::utils::fitness_metrics::{count_matches, rows};
use crate::utils::graph::{
    contains, dep_graph, first_listed, gene_deps, genes, is_active, is_evaluation_order,
    is_first_listed, lemma_active_closed,
    links_in_range, lists_active, mark_active, output_positions, placed_before, role_at, GraphNode,
};
use crate::utils::node_type::NodeType;
use crate::utils::random::{draw_mutation, random_below, MUTATION_DRAWS};
use crate::utils::toposort::{has_cycle, is_edge, toposort_positions};

verus! {

/// A graph of the DAG encoding: the nodes by position, the positions of the
/// outputs, the cached positions of the active nodes, and the recorded
/// dependencies of the computational nodes.
pub struct Chromosome {
    pub params: CgpParameters,
    pub nodes_grid: Vec<NodeDAG>,
    pub output_node_ids: Vec<usize>,
    pub active_nodes: Option<Vec<usize>>,
    pub cgp_edges: CGPEdges}

/// The grid holds inputs, then computational nodes, then outputs, each node at
/// its position and wired as its role asks.
pub open spec fn nodes_wf(params: CgpParameters, nodes: Seq<NodeDAG>) -> bool {
    &&& nodes.len() == params.total()
    &&& params.total() <= 0x7fff_ffff
    &&& forall|v: int|
        0 <= v < nodes.len() ==> {
            let node = #[trigger] nodes[v];
            &&& node.wf()
            &&& node.position == v
            &&& node.nbr_inputs == params.nbr_inputs
            &&& node.graph_width == params.graph_width
            &&& node.node_type == role_at(v, params.nbr_inputs as int, params.graph_width as int)
        }
}

/// The recorded dependencies are those of the grid: none for an input, the
/// two connections for a computational node.
pub open spec fn edges_wf(params: CgpParameters, nodes: Seq<NodeDAG>, g: Seq<Seq<usize>>) -> bool {
    &&& g.len() == params.nbr_inputs + params.graph_width
    &&& forall|v: int| 0 <= v < params.nbr_inputs && v < g.len() ==> (#[trigger] g[v]).len() == 0
    &&& forall|v: int|
        params.nbr_inputs <= v < g.len() && v < nodes.len() ==> (#[trigger] nodes[v]).edges_match(g)
}

/// Whether the grid is well-formed.
pub fn check_nodes(params: &CgpParameters, nodes: &Vec<NodeDAG>) -> (b: bool)
    ensures
        b == nodes_wf(*params, nodes@),
{
    assert(nodes@.len() == nodes.len());
    let total = match params.nbr_inputs.checked_add(params.graph_width) {
        Some(range) => match range.checked_add(params.nbr_outputs) {
            Some(total) => total,
            None => {
                return false;
            },
        },
        None => {
            return false;
        },
    };
    if nodes.len() != total || total > 0x7fff_ffff {
        return false;
    }
    let mut v: usize = 0;
    while v < total
        invariant
            total == params.total(),
            nodes@.len() == total,
            v <= total,
            forall|u: int|
                0 <= u < v ==> {
                    let node = #[trigger] nodes@[u];
                    &&& node.wf()
                    &&& node.position == u
                    &&& node.nbr_inputs == params.nbr_inputs
                    &&& node.graph_width == params.graph_width
                    &&& node.node_type == role_at(u, params.nbr_inputs as int, params.graph_width as int)
                },
        decreases total - v,
    {
        let node = nodes[v];
        let role_fits = match node.node_type {
            NodeType::InputNode => v < params.nbr_inputs,
            NodeType::ComputationalNode => params.nbr_inputs <= v && v < params.nbr_inputs + params.graph_width,
            NodeType::OutputNode => params.nbr_inputs + params.graph_width <= v};
        if !(node.check_wf() && node.position == v && node.nbr_inputs == params.nbr_inputs && node.graph_width
            == params.graph_width && role_fits) {
            return false;
        }
        v += 1;
    }
    true
}

/// Whether the listed outputs are the positions behind the computational
/// nodes.
pub fn check_outputs(params: &CgpParameters, outputs: &Vec<usize>) -> (b: bool)
    requires
        params.total() <= usize::MAX,
    ensures
        b == (outputs@ == output_positions(
            params.nbr_inputs as int,
            params.graph_width as int,
            params.nbr_outputs as int,
        )),
{
    let ghost expected = output_positions(
        params.nbr_inputs as int,
        params.graph_width as int,
        params.nbr_outputs as int,
    );
    if outputs.len() != params.nbr_outputs {
        return false;
    }
    let first = params.nbr_inputs + params.graph_width;
    let mut k: usize = 0;
    while k < outputs.len()
        invariant
            params.total() <= usize::MAX,
            first == params.nbr_inputs + params.graph_width,
            outputs@.len() == params.nbr_outputs,
            expected == output_positions(
                params.nbr_inputs as int,
                params.graph_width as int,
                params.nbr_outputs as int,
            ),
            k <= outputs@.len(),
            forall|i: int| 0 <= i < k ==> outputs@[i] == first + i,
        decreases outputs@.len() - k,
    {
        if outputs[k] != first + k {
            assert(outputs@[k as int] != expected[k as int]);
            return false;
        }
        k += 1;
    }
    assert(outputs@ =~= expected);
    true
}

/// The edge from `a` to `b` is listed.
pub open spec fn lists_edge(edges: Seq<(usize, usize)>, a: usize, b: usize) -> bool {
    exists|e: int| 0 <= e < edges.len() && #[trigger] edges[e] == (a, b)
}

/// A walk through the dependencies of the grid that starts before the outputs
/// stays there, and is a walk through the recorded dependencies.
pub proof fn lemma_walk_is_recorded(
    params: CgpParameters,
    nodes: Seq<NodeDAG>,
    g: Seq<Seq<usize>>,
    p: Seq<int>,
    i: int,
)
    requires
        nodes_wf(params, nodes),
        edges_wf(params, nodes, g),
        is_walk(dep_graph(genes(nodes)), p),
        0 <= i < p.len(),
        i == 0 ==> 0 <= p[0] < params.nbr_inputs + params.graph_width,
    ensures
        0 <= p[i] < params.nbr_inputs + params.graph_width,
        i > 0 && p[0] < params.nbr_inputs + params.graph_width ==> has_edge(g, p[i - 1], p[i]),
    decreases i,
{
    let d = dep_graph(genes(nodes));
    if i > 0 {
        assert(has_edge(d, p[i - 1], p[i]));
        let u = p[i - 1];
        let node = nodes[u];
        assert(node.wf() && node.position == u);
        assert(genes(nodes)[u] == node.gene());
        assert(d[u] == gene_deps(node.gene()));
        let k = choose|k: int| 0 <= k < d[u].len() && #[trigger] d[u][k] == p[i];
        if p[0] < params.nbr_inputs + params.graph_width {
            lemma_walk_is_recorded(params, nodes, g, p, i - 1);
            assert(node.node_type == NodeType::ComputationalNode);
            assert(node.edges_match(g));
            if g[u] =~= seq![node.connection1, node.connection2] {
                assert(g[u][k] == p[i]);
            } else {
                assert(g[u][1 - k] == p[i]);
            }
        }
    }
}

/// The dependencies of a well-formed grid whose recorded dependencies have no
/// cycle have none either.
pub proof fn lemma_dependencies_acyclic(params: CgpParameters, nodes: Seq<NodeDAG>, g: Seq<Seq<usize>>)
    requires
        nodes_wf(params, nodes),
        edges_wf(params, nodes, g),
        acyclic(g),
    ensures
        acyclic(dep_graph(genes(nodes))),
        links_in_range(genes(nodes)),
{
    let d = dep_graph(genes(nodes));
    assert forall|x: int| !#[trigger] reaches(d, x, x) by {
        if reaches(d, x, x) {
            let p = choose|p: Seq<int>| is_walk(d, p) && p.len() >= 2 && p[0] == x && #[trigger] p.last() == x;
            assert(has_edge(d, p[0], p[1]));
            if x < params.nbr_inputs + params.graph_width {
                assert forall|i: int| 0 <= i < p.len() - 1 implies has_edge(g, #[trigger] p[i], p[i + 1]) by {
                    lemma_walk_is_recorded(params, nodes, g, p, i + 1);
                }
                assert(is_walk(g, p));
                assert(reaches(g, x, x));
            } else {
                lemma_walk_is_recorded(params, nodes, g, p, p.len() - 1);
            }
        }
    }
    assert forall|a: int, k: int| 0 <= a < d.len() && 0 <= k < d[a].len() implies (#[trigger] d[a][k])
        < d.len() by {
        let node = nodes[a];
        assert(node.wf() && node.position == a);
        assert(genes(nodes)[a] == node.gene());
        assert(d[a] == gene_deps(node.gene()));
    }
}

/// The grid `new` with the recorded dependencies `new_g` is the grid `old`
/// with `old_g` after one mutation of the node at `v`, a computational node
/// or an output: every other node and its dependencies are as they were, the
/// dependencies of a mutated computational node are its connections, and an
/// output changes none.
pub open spec fn dag_mutated_at(
    params: CgpParameters,
    old: Seq<NodeDAG>,
    old_g: Seq<Seq<usize>>,
    new: Seq<NodeDAG>,
    new_g: Seq<Seq<usize>>,
    v: int,
) -> bool {
    &&& params.nbr_inputs <= v < old.len()
    &&& new.len() == old.len()
    &&& old[v].mutated_to(new[v], old_g)
    &&& forall|u: int| 0 <= u < old.len() && u != v ==> new[u] == old[u]
    &&& new_g.len() == old_g.len()
    &&& forall|a: int| 0 <= a < old_g.len() && a != v ==> new_g[a] == old_g[a]
    &&& v < old_g.len() ==> new[v].edges_match(new_g)
    &&& v >= old_g.len() ==> new_g == old_g
}

/// Each grid of `grids`, with the dependencies that `graphs` holds beside it,
/// comes from the grid before it by one mutation, of the node that `draws`
/// names at that place.
pub open spec fn is_dag_mutation_trace(
    params: CgpParameters,
    grids: Seq<Seq<NodeDAG>>,
    graphs: Seq<Seq<Seq<usize>>>,
    draws: Seq<usize>,
) -> bool {
    &&& grids.len() == draws.len() + 1
    &&& graphs.len() == grids.len()
    &&& forall|i: int|
        0 <= i < draws.len() ==> dag_mutated_at(
            params,
            grids[i],
            graphs[i],
            grids[i + 1],
            graphs[i + 1],
            (#[trigger] draws[i]) as int,
        )
}

/// What mutation until an active node is hit does, told by the nodes drawn
/// and the grids and dependencies passed through. The grid `new` with
/// `new_g` comes from `old` with `old_g` by one mutation for every node of
/// `draws`. Only the last of them may stand in `active`: it does, and is
/// named by `hit`. Where `usize::MAX` draws have missed, the last of `draws`
/// is no draw but the first computational node or output of `active`. `hit`
/// is `None`, and nothing is mutated, only where `active` holds no
/// computational node and no output.
pub open spec fn is_dag_mutation_until_active(
    params: CgpParameters,
    old: Seq<NodeDAG>,
    old_g: Seq<Seq<usize>>,
    new: Seq<NodeDAG>,
    new_g: Seq<Seq<usize>>,
    active: Seq<usize>,
    hit: Option<usize>,
    grids: Seq<Seq<NodeDAG>>,
    graphs: Seq<Seq<Seq<usize>>>,
    draws: Seq<usize>,
) -> bool {
    &&& is_dag_mutation_trace(params, grids, graphs, draws)
    &&& grids[0] == old
    &&& graphs[0] == old_g
    &&& grids[draws.len() as int] == new
    &&& graphs[draws.len() as int] == new_g
    &&& forall|i: int| 0 <= i < draws.len() - 1 ==> !active.contains(#[trigger] draws[i])
    &&& draws.len() <= usize::MAX + 1
    &&& match hit {
        Some(v) => {
            &&& draws.len() > 0
            &&& draws[draws.len() - 1] == v
            &&& active.contains(v)
            &&& draws.len() == usize::MAX + 1 ==> is_first_listed(
                active,
                params.nbr_inputs as int,
                old.len() as int,
                v,
            )
        },
        None => draws.len() == 0 && forall|v: usize| params.nbr_inputs <= v < old.len() ==> !active.contains(v),
    }
}

/// The `k`-th computational node or output is kept or mutated once between
/// the `k`-th and the next of `grids`: kept where the chance is 0, mutated
/// where it is certain.
pub open spec fn is_dag_step(
    params: CgpParameters,
    grids: Seq<Seq<NodeDAG>>,
    graphs: Seq<Seq<Seq<usize>>>,
    threshold: u32,
    k: int,
) -> bool {
    ||| threshold < MUTATION_DRAWS && grids[k + 1] == grids[k] && graphs[k + 1] == graphs[k]
    ||| threshold > 0 && dag_mutated_at(
        params,
        grids[k],
        graphs[k],
        grids[k + 1],
        graphs[k + 1],
        params.nbr_inputs + k,
    )
}

/// What mutation of each node with a chance does, told by the grids and
/// dependencies passed through: from `old` with `old_g` to `new` with
/// `new_g`, one step for every computational node and output, in the order of
/// their positions.
pub open spec fn is_dag_mutation_of_each(
    params: CgpParameters,
    old: Seq<NodeDAG>,
    old_g: Seq<Seq<usize>>,
    new: Seq<NodeDAG>,
    new_g: Seq<Seq<usize>>,
    threshold: u32,
    grids: Seq<Seq<NodeDAG>>,
    graphs: Seq<Seq<Seq<usize>>>,
) -> bool {
    &&& grids.len() == old.len() - params.nbr_inputs + 1
    &&& graphs.len() == grids.len()
    &&& grids[0] == old
    &&& graphs[0] == old_g
    &&& grids[grids.len() - 1] == new
    &&& graphs[grids.len() - 1] == new_g
    &&& forall|k: int| 0 <= k < grids.len() - 1 ==> #[trigger] is_dag_step(params, grids, graphs, threshold, k)
}

impl Clone for Chromosome {
    fn clone(&self) -> (r: Self)
        ensures
            r.same_as(self),
    {
        let nodes_grid = self.nodes_grid.clone();
        let output_node_ids = self.output_node_ids.clone();
        let active_nodes = match &self.active_nodes {
            Some(active) => {
                let copy = active.clone();
                assert(copy@ =~= active@);
                Some(copy)
            },
            None => None,
        };
        assert(nodes_grid@ =~= self.nodes_grid@);
        assert(output_node_ids@ =~= self.output_node_ids@);
        Self { params: self.params, nodes_grid, output_node_ids, active_nodes, cgp_edges: self.cgp_edges.clone() }
    }
}

impl Chromosome {
    /// The two graphs hold the same parameters, nodes, outputs and cache, and the same
    /// recorded dependencies.
    pub open spec fn same_as(&self, other: &Self) -> bool {
        &&& self.params == other.params
        &&& self.nodes_grid@ == other.nodes_grid@
        &&& self.output_node_ids@ == other.output_node_ids@
        &&& self.active_nodes is Some == other.active_nodes is Some
        &&& self.active_nodes is Some ==> self.active_nodes->0@ == other.active_nodes->0@
        &&& self.cgp_edges@ == other.cgp_edges@
    }

    /// The grid is well-formed, the recorded dependencies are those of the
    /// grid, and no node depends on itself.
    pub open spec fn wf(&self) -> bool {
        &&& nodes_wf(self.params, self.nodes_grid@)
        &&& self.output_node_ids@ == output_positions(
            self.params.nbr_inputs as int,
            self.params.graph_width as int,
            self.params.nbr_outputs as int,
        )
        &&& self.cgp_edges.wf()
        &&& edges_wf(self.params, self.nodes_grid@, self.cgp_edges@)
        &&& acyclic(self.cgp_edges@)
    }

    /// The cached list of active nodes is there and fits the grid: it holds
    /// exactly the positions that influence an output, each after the
    /// positions it reads.
    pub open spec fn active_is_current(&self) -> bool {
        &&& self.active_nodes matches Some(active)
        &&& lists_active(genes(self.nodes_grid@), self.output_node_ids@, active@)
        &&& is_evaluation_order(genes(self.nodes_grid@), active@)
    }

    /// `other` has the parameters, the outputs and the cached active nodes of
    /// this graph.
    pub open spec fn same_frame(&self, other: &Self) -> bool {
        &&& self.params == other.params
        &&& self.output_node_ids@ == other.output_node_ids@
        &&& self.active_nodes == other.active_nodes
    }

    /// The number of bits in which the outputs agree with `labels` on `inputs`.
    pub open spec fn spec_evaluate(&self, inputs: Seq<Seq<bool>>, labels: Seq<Seq<bool>>) -> nat {
        count_matches(
            output_values(
                genes(self.nodes_grid@),
                self.params.nbr_inputs + self.params.graph_width,
                self.params.nbr_outputs as int,
                inputs,
            ),
            labels,
        )
    }

    /// Whether the graph is well-formed: the grid is, the recorded
    /// dependencies are those of the grid, and no node depends on itself.
    pub fn check_wf(&mut self) -> (b: bool)
        ensures
            *final(self) == *old(self),
            b == old(self).wf(),
    {
        if !check_nodes(&self.params, &self.nodes_grid) {
            return false;
        }
        assert(self.params.total() == self.nodes_grid.len());
        if !check_outputs(&self.params, &self.output_node_ids) {
            return false;
        }
        if !self.cgp_edges.check_targets() {
            return false;
        }
        let range = self.params.nbr_inputs + self.params.graph_width;
        if self.cgp_edges.len() != range {
            return false;
        }
        let ghost g = self.cgp_edges@;
        let mut v: usize = 0;
        while v < range
            invariant
                *self == *old(self),
                g == self.cgp_edges@,
                self.cgp_edges.wf(),
                nodes_wf(self.params, self.nodes_grid@),
                range == self.params.nbr_inputs + self.params.graph_width,
                g.len() == range,
                v <= range,
                forall|u: int| 0 <= u < v && u < self.params.nbr_inputs ==> (#[trigger] g[u]).len() == 0,
                forall|u: int|
                    self.params.nbr_inputs <= u < v ==> (#[trigger] self.nodes_grid@[u]).edges_match(g),
                forall|u: int| 0 <= u < v ==> !#[trigger] reaches(g, u, u),
            decreases range - v,
        {
            let listed = self.cgp_edges.count(v);
            if v < self.params.nbr_inputs {
                if listed != 0 {
                    return false;
                }
            } else {
                let node = self.nodes_grid[v];
                assert(node.wf() && node.position == v);
                if listed != 2 {
                    return false;
                }
                let first = self.cgp_edges.target(v, 0);
                let second = self.cgp_edges.target(v, 1);
                let straight = first == node.connection1 && second == node.connection2;
                let crossed = first == node.connection2 && second == node.connection1;
                if !(straight || crossed) {
                    assert(!node.edges_match(g)) by {
                        if node.edges_match(g) {
                            assert(g[v as int][0] == first && g[v as int][1] == second);
                        }
                    }
                    return false;
                }
                assert(node.edges_match(g)) by {
                    if straight {
                        assert(g[v as int] =~= seq![node.connection1, node.connection2]);
                    } else {
                        assert(g[v as int] =~= seq![node.connection2, node.connection1]);
                    }
                }
            }
            if self.cgp_edges.check_cycle(v, v) {
                return false;
            }
            v += 1;
        }
        proof {
            assert forall|x: int| !#[trigger] reaches(g, x, x) by {
                if reaches(g, x, x) {
                    let p = choose|p: Seq<int>|
                        is_walk(g, p) && p.len() >= 2 && p[0] == x && #[trigger] p.last() == x;
                    assert(has_edge(g, p[0], p[1]));
                }
            }
        }
        true
    }

    /// A graph of random nodes, each reading earlier positions.
    pub fn new(params: CgpParameters) -> (r: Self)
        requires
            params.wf(),
            params.total() <= 0x7fff_ffff,
        ensures
            r.wf(),
            r.params == params,
            r.active_nodes is None,
    {
        let nbr_inputs = params.nbr_inputs;
        let graph_width = params.graph_width;
        let total = params.nbr_inputs + params.graph_width + params.nbr_outputs;
        let mut nodes_grid: Vec<NodeDAG> = Vec::with_capacity(total);
        let mut output_node_ids: Vec<usize> = Vec::with_capacity(params.nbr_outputs);
        let mut cgp_edges = CGPEdges::new(params.nbr_inputs + params.graph_width);
        let mut position: usize = 0;
        while position < total
            invariant
                params.wf(),
                nbr_inputs == params.nbr_inputs,
                graph_width == params.graph_width,
                total == params.total(),
                position <= total,
                nodes_grid@.len() == position,
                cgp_edges@.len() == nbr_inputs + graph_width,
                forall|v: int|
                    0 <= v < position ==> {
                        let node = #[trigger] nodes_grid@[v];
                        &&& node.wf()
                        &&& node.position == v
                        &&& node.nbr_inputs == nbr_inputs
                        &&& node.graph_width == graph_width
                        &&& node.node_type == role_at(v, nbr_inputs as int, graph_width as int)
                    },
                forall|v: int|
                    nbr_inputs <= v < position && v < nbr_inputs + graph_width ==> (
                    #[trigger] nodes_grid@[v]).edges_match(cgp_edges@),
                forall|v: int|
                    0 <= v < cgp_edges@.len() && !(nbr_inputs <= v < position) ==> (#[trigger] cgp_edges@[v]).len()
                        == 0,
                forall|a: int, k: int|
                    0 <= a < cgp_edges@.len() && 0 <= k < cgp_edges@[a].len() ==> (#[trigger] cgp_edges@[a][k])
                        < a,
            decreases total - position,
        {
            let node_type = if position < nbr_inputs {
                NodeType::InputNode
            } else if position < nbr_inputs + graph_width {
                NodeType::ComputationalNode
            } else {
                NodeType::OutputNode
            };
            let ghost before = cgp_edges@;
            let ghost grid_before = nodes_grid@;
            let node = NodeDAG::new(position, nbr_inputs, graph_width, node_type, &mut cgp_edges);
            nodes_grid.push(node);
            proof {
                assert forall|v: int|
                    nbr_inputs <= v < position + 1 && v < nbr_inputs + graph_width implies (
                #[trigger] nodes_grid@[v]).edges_match(cgp_edges@) by {
                    if v < position {
                        assert(nodes_grid@[v] == grid_before[v]);
                        assert(grid_before[v].edges_match(before));
                        assert(cgp_edges@[v] == before[v]);
                    } else {
                        assert(before[v].len() == 0);
                        assert(cgp_edges@[v] =~= seq![node.connection1, node.connection2]);
                    }
                }
                assert forall|a: int, k: int| 0 <= a < cgp_edges@.len() && 0 <= k < cgp_edges@[a].len() implies (
                #[trigger] cgp_edges@[a][k]) < a by {
                    if a == position && node_type == NodeType::ComputationalNode {
                        assert(before[a].len() == 0);
                    } else {
                        assert(cgp_edges@[a] == before[a]);
                        assert(before[a][k] < a);
                    }
                }
            }
            position += 1;
        }
        let mut k: usize = 0;
        while k < params.nbr_outputs
            invariant
                params.wf(),
                k <= params.nbr_outputs,
                output_node_ids@.len() == k,
                forall|i: int| 0 <= i < k ==> output_node_ids@[i] == params.nbr_inputs + params.graph_width + i,
            decreases params.nbr_outputs - k,
        {
            output_node_ids.push(params.nbr_inputs + params.graph_width + k);
            k += 1;
        }
        proof {
            assert(output_node_ids@ =~= output_positions(
                params.nbr_inputs as int,
                params.graph_width as int,
                params.nbr_outputs as int,
            ));
            lemma_backward_acyclic(cgp_edges@);
        }
        Self { params, nodes_grid, output_node_ids, active_nodes: None, cgp_edges }
    }

    /// Evaluates the graph on every sample of `inputs` and counts the output
    /// bits that agree with `labels`.
    pub fn evaluate(&mut self, inputs: &Vec<Vec<bool>>, labels: &Vec<Vec<bool>>) -> (matches: usize)
        requires
            old(self).wf(),
            forall|r: int| 0 <= r < inputs@.len() ==> (#[trigger] inputs@[r])@.len() >= old(self).params.nbr_inputs,
            labels@.len() == inputs@.len(),
            forall|r: int| 0 <= r < labels@.len() ==> (#[trigger] labels@[r])@.len() == old(self).params.nbr_outputs,
            inputs@.len() * old(self).params.nbr_outputs <= usize::MAX,
        ensures
            final(self).wf(),
            final(self).params == old(self).params,
            final(self).nodes_grid@ == old(self).nodes_grid@,
            final(self).output_node_ids@ == old(self).output_node_ids@,
            final(self).cgp_edges@ == old(self).cgp_edges@,
            final(self).active_is_current(),
            matches == old(self).spec_evaluate(rows(inputs@), rows(labels@)),
            matches <= inputs@.len() * old(self).params.nbr_outputs,
    {
        self.get_active_nodes_id();
        let ghost gs = genes(self.nodes_grid@);
        let first_output = self.params.nbr_inputs + self.params.graph_width;
        let nbr_outputs = self.params.nbr_outputs;
        proof {
            assert forall|v: int, r: int|
                0 <= v < gs.len() && (#[trigger] gs[v]).node_type == NodeType::InputNode && 0 <= r < rows(
                    inputs@,
                ).len() implies v < (#[trigger] rows(inputs@)[r]).len() by {
                assert(self.nodes_grid@[v].wf() && self.nodes_grid@[v].position == v);
                assert(inputs@[r]@.len() >= self.params.nbr_inputs);
            }
            assert forall|v: int|
                0 <= v < gs.len() && (#[trigger] gs[v]).node_type
                    == NodeType::ComputationalNode implies gs[v].function_id < 4 by {
                assert(self.nodes_grid@[v].wf());
            }
            let active = self.active_nodes->0;
            assert forall|o: usize| first_output <= o < first_output + nbr_outputs implies active@.contains(o) by {
                assert(self.output_node_ids@[o - first_output] == o);
                assert(is_active(gs, self.output_node_ids@, o as int));
            }
        }
        match &self.active_nodes {
            Some(active) => evaluate_outputs(&self.nodes_grid, active, first_output, nbr_outputs, inputs, labels),
            None => 0,
        }
    }

    /// Finds the nodes that influence an output and caches their positions in
    /// a topological order of their dependencies, which is an order in which
    /// they can be evaluated. Such an order exists because no node depends
    /// on itself.
    pub fn get_active_nodes_id(&mut self)
        requires
            old(self).wf(),
        ensures
            final(self).wf(),
            final(self).params == old(self).params,
            final(self).nodes_grid@ == old(self).nodes_grid@,
            final(self).output_node_ids@ == old(self).output_node_ids@,
            final(self).cgp_edges@ == old(self).cgp_edges@,
            final(self).active_is_current(),
    {
        let ghost gs = genes(self.nodes_grid@);
        let ghost d = dep_graph(gs);
        proof {
            lemma_dependencies_acyclic(self.params, self.nodes_grid@, self.cgp_edges@);
        }
        let total = self.nodes_grid.len();
        let marked = mark_active(&self.nodes_grid, &self.output_node_ids);
        let mut edges: Vec<(usize, usize)> = Vec::new();
        let mut removed: Vec<usize> = Vec::new();
        let mut v: usize = 0;
        while v < total
            invariant
                self.wf(),
                gs == genes(self.nodes_grid@),
                d == dep_graph(gs),
                total == self.nodes_grid@.len(),
                marked@.len() == total,
                v <= total,
                edges@.len() <= 2 * v,
                forall|e: int|
                    0 <= e < edges@.len() ==> {
                        let edge = #[trigger] edges@[e];
                        &&& edge.0 < total
                        &&& edge.1 < v
                        &&& marked@[edge.1 as int]
                        &&& has_edge(d, edge.1 as int, edge.0 as int)
                    },
                forall|u: int, k: int|
                    0 <= u < v && marked@[u] && 0 <= k < d[u].len() ==> lists_edge(
                        edges@,
                        #[trigger] d[u][k],
                        u as usize,
                    ),
                forall|i: int| 0 <= i < removed@.len() ==> (#[trigger] removed@[i]) < v && !marked@[removed@[i] as int],
                forall|u: usize| u < v && !marked@[u as int] ==> removed@.contains(u),
            decreases total - v,
        {
            let ghost edges_before = edges@;
            let ghost removed_before = removed@;
            let node = self.nodes_grid[v];
            proof {
                assert(node.wf() && node.position == v);
                assert(gs[v as int] == node.gene());
                assert(d[v as int] == gene_deps(node.gene()));
            }
            if marked[v] {
                match node.node_type {
                    NodeType::InputNode => {},
                    NodeType::ComputationalNode => {
                        edges.push((node.connection1, v));
                        edges.push((node.connection2, v));
                        proof {
                            assert(d[v as int][0] == node.connection1);
                            assert(d[v as int][1] == node.connection2);
                            assert(edges@[edges_before.len() as int] == (node.connection1, v));
                            assert(edges@[edges_before.len() as int + 1] == (node.connection2, v));
                        }
                    },
                    NodeType::OutputNode => {
                        edges.push((node.connection1, v));
                        proof {
                            assert(d[v as int][0] == node.connection1);
                            assert(edges@[edges_before.len() as int] == (node.connection1, v));
                        }
                    },
                }
            } else {
                removed.push(v);
                assert(removed@[removed_before.len() as int] == v);
            }
            proof {
                assert forall|u: int, k: int| 0 <= u < v + 1 && marked@[u] && 0 <= k < d[u].len() implies lists_edge(
                    edges@,
                    #[trigger] d[u][k],
                    u as usize,
                ) by {
                    if u < v {
                        assert(lists_edge(edges_before, d[u][k], u as usize));
                        let e = choose|e: int|
                            0 <= e < edges_before.len() && #[trigger] edges_before[e] == (d[u][k], u as usize);
                        assert(edges@[e] == (d[u][k], u as usize));
                    } else {
                        if k == 0 {
                            assert(edges@[edges_before.len() as int] == (d[u][k], u as usize));
                        } else {
                            assert(edges@[edges_before.len() as int + 1] == (d[u][k], u as usize));
                        }
                    }
                }
                assert forall|u: usize| u < v + 1 && !marked@[u as int] implies removed@.contains(u) by {
                    if u < v {
                        assert(removed_before.contains(u));
                        let i = choose|i: int| 0 <= i < removed_before.len() && removed_before[i] == u;
                        assert(removed@[i] == u);
                    }
                }
                assert forall|e: int| 0 <= e < edges@.len() implies {
                    let edge = #[trigger] edges@[e];
                    &&& edge.0 < total
                    &&& edge.1 < v + 1
                    &&& marked@[edge.1 as int]
                    &&& has_edge(d, edge.1 as int, edge.0 as int)
                } by {
                    if e < edges_before.len() {
                        assert(edges@[e] == edges_before[e]);
                    }
                }
            }
            v += 1;
        }
        let order = match toposort_positions(total, &edges, &removed) {
            Some(order) => order,
            None => {
                proof {
                    lemma_no_cycle_among_dependencies(d, edges@, removed@);
                }
                Vec::new()
            },
        };
        proof {
            let outputs = self.output_node_ids@;
            assert forall|x: usize| order@.contains(x) <==> (x < gs.len() && is_active(gs, outputs, x as int)) by {
                if x < total {
                    if removed@.contains(x) {
                        let i = choose|i: int| 0 <= i < removed@.len() && removed@[i] == x;
                        assert(!marked@[removed@[i] as int]);
                    }
                }
            }
            assert forall|k: int| 0 <= k < order@.len() implies (#[trigger] order@[k]) < gs.len() by {
                assert(order@.contains(order@[k]));
            }
            assert forall|k: int, i: int| 0 <= k < order@.len() && 0 <= i < d[order@[k] as int].len() implies placed_before(
                order@,
                k,
                #[trigger] d[order@[k] as int][i],
            ) by {
                let u = order@[k];
                assert(order@.contains(u));
                assert(u < total);
                let t = d[u as int][i];
                assert(marked@[u as int]);
                assert(lists_edge(edges@, t, u));
                let e = choose|e: int| 0 <= e < edges@.len() && #[trigger] edges@[e] == (t, u);
                assert(has_edge(d, u as int, t as int));
                lemma_active_closed(gs, outputs, u as int, t as int);
                assert(order@.contains(t));
                assert(!removed@.contains(edges@[e].0));
            }
        }
        self.active_nodes = Some(order);
    }

    /// Applies one mutation to the node at `node_id`.
    fn mutate_node(&mut self, node_id: usize)
        requires
            old(self).wf(),
            old(self).params.nbr_inputs <= node_id < old(self).nodes_grid@.len(),
        ensures
            final(self).wf(),
            final(self).same_frame(old(self)),
            final(self).nodes_grid@.len() == old(self).nodes_grid@.len(),
            old(self).nodes_grid@[node_id as int].mutated_to(
                final(self).nodes_grid@[node_id as int],
                old(self).cgp_edges@,
            ),
            forall|v: int|
                0 <= v < old(self).nodes_grid@.len() && v != node_id ==> final(self).nodes_grid@[v]
                    == old(self).nodes_grid@[v],
            dag_mutated_at(
                old(self).params,
                old(self).nodes_grid@,
                old(self).cgp_edges@,
                final(self).nodes_grid@,
                final(self).cgp_edges@,
                node_id as int,
            ),
    {
        let ghost g = self.cgp_edges@;
        let ghost old_nodes = self.nodes_grid@;
        let mut node = self.nodes_grid[node_id];
        assert(node.wf() && node.position == node_id);
        assert(node.node_type == NodeType::ComputationalNode ==> node.edges_match(g));
        node.mutate(&mut self.cgp_edges);
        self.nodes_grid[node_id] = node;
        proof {
            let more = self.cgp_edges@;
            assert forall|v: int|
                self.params.nbr_inputs <= v < more.len() && v < self.nodes_grid@.len() implies (
            #[trigger] self.nodes_grid@[v]).edges_match(more) by {
                if v != node_id {
                    assert(old_nodes[v].edges_match(g));
                    assert(more[v] == g[v]);
                }
            }
            assert forall|v: int| 0 <= v < self.params.nbr_inputs && v < more.len() implies (#[trigger] more[v]).len()
                == 0 by {
                assert(more[v] == g[v]);
            }
        }
    }

    /// Mutates nodes drawn at random among the computational nodes and outputs
    /// until a drawn node stands in the cached list of active nodes, and names
    /// that node. Where `usize::MAX` draws have missed, the first
    /// computational node or output of the list is mutated and named. None is
    /// named, and nothing is mutated, only where the list holds no
    /// computational node and no output.
    pub fn mutate_single(&mut self) -> (hit: Option<usize>)
        requires
            old(self).wf(),
            old(self).active_nodes is Some,
        ensures
            final(self).wf(),
            final(self).same_frame(old(self)),
            forall|v: int|
                0 <= v < old(self).params.nbr_inputs ==> final(self).nodes_grid@[v] == old(self).nodes_grid@[v],
            hit is Some <==> exists|v: usize|
                old(self).params.nbr_inputs <= v < old(self).nodes_grid@.len() && old(self).active_nodes->0@.contains(
                    v,
                ),
            hit is None ==> final(self).nodes_grid@ == old(self).nodes_grid@ && final(self).cgp_edges@ == old(
                self,
            ).cgp_edges@,
            hit matches Some(v) ==> old(self).params.nbr_inputs <= v < old(self).nodes_grid@.len() && old(
                self,
            ).active_nodes->0@.contains(v),
            exists|grids: Seq<Seq<NodeDAG>>, graphs: Seq<Seq<Seq<usize>>>, draws: Seq<usize>| #[trigger]
                is_dag_mutation_until_active(
                    old(self).params,
                    old(self).nodes_grid@,
                    old(self).cgp_edges@,
                    final(self).nodes_grid@,
                    final(self).cgp_edges@,
                    old(self).active_nodes->0@,
                    hit,
                    grids,
                    graphs,
                    draws,
                ),
    {
        let start_id = self.params.nbr_inputs;
        let end_id = self.nodes_grid.len();
        let ghost params = self.params;
        let ghost active = self.active_nodes->0@;
        let ghost mut grids: Seq<Seq<NodeDAG>> = seq![self.nodes_grid@];
        let ghost mut graphs: Seq<Seq<Seq<usize>>> = seq![self.cgp_edges@];
        let ghost mut drawn: Seq<usize> = Seq::empty();
        let listed = match &self.active_nodes {
            Some(active) => first_listed(active, start_id, end_id),
            None => None,
        };
        let first = match listed {
            Some(first) => first,
            None => {
                proof {
                    assert(is_dag_mutation_until_active(
                        params,
                        old(self).nodes_grid@,
                        old(self).cgp_edges@,
                        self.nodes_grid@,
                        self.cgp_edges@,
                        active,
                        None,
                        grids,
                        graphs,
                        drawn,
                    ));
                }
                return None;
            },
        };
        let mut draws: usize = 0;
        while draws < usize::MAX
            invariant
                self.wf(),
                self.same_frame(old(self)),
                self.active_nodes is Some,
                params == self.params,
                active == old(self).active_nodes->0@,
                start_id == self.params.nbr_inputs,
                end_id == self.nodes_grid@.len(),
                end_id == old(self).nodes_grid@.len(),
                start_id <= first < end_id,
                active.contains(first),
                is_first_listed(active, start_id as int, end_id as int, first),
                forall|v: int| 0 <= v < start_id ==> self.nodes_grid@[v] == old(self).nodes_grid@[v],
                drawn.len() == draws,
                is_dag_mutation_trace(params, grids, graphs, drawn),
                grids[0] == old(self).nodes_grid@,
                graphs[0] == old(self).cgp_edges@,
                grids[drawn.len() as int] == self.nodes_grid@,
                graphs[drawn.len() as int] == self.cgp_edges@,
                forall|i: int| 0 <= i < drawn.len() ==> !active.contains(#[trigger] drawn[i]),
            decreases usize::MAX - draws,
        {
            draws += 1;
            let random_node_id = start_id + random_below(end_id - start_id);
            let ghost grids_before = grids;
            let ghost graphs_before = graphs;
            let ghost drawn_before = drawn;
            self.mutate_node(random_node_id);
            proof {
                grids = grids.push(self.nodes_grid@);
                graphs = graphs.push(self.cgp_edges@);
                drawn = drawn.push(random_node_id);
                assert forall|i: int| 0 <= i < drawn.len() implies dag_mutated_at(
                    params,
                    grids[i],
                    graphs[i],
                    grids[i + 1],
                    graphs[i + 1],
                    (#[trigger] drawn[i]) as int,
                ) by {
                    if i < drawn_before.len() {
                        assert(dag_mutated_at(
                            params,
                            grids_before[i],
                            graphs_before[i],
                            grids_before[i + 1],
                            graphs_before[i + 1],
                            drawn_before[i] as int,
                        ));
                    }
                }
            }
            let hit = match &self.active_nodes {
                Some(active) => contains(active, random_node_id),
                None => false,
            };
            if hit {
                proof {
                    assert(self.active_nodes->0@ == old(self).active_nodes->0@);
                    assert forall|i: int| 0 <= i < drawn.len() - 1 implies !active.contains(
                        #[trigger] drawn[i],
                    ) by {
                        assert(drawn[i] == drawn_before[i]);
                    }
                    assert(is_dag_mutation_until_active(
                        params,
                        old(self).nodes_grid@,
                        old(self).cgp_edges@,
                        self.nodes_grid@,
                        self.cgp_edges@,
                        active,
                        Some(random_node_id),
                        grids,
                        graphs,
                        drawn,
                    ));
                }
                return Some(random_node_id);
            }
            proof {
                assert(self.active_nodes->0@ == old(self).active_nodes->0@);
                assert forall|i: int| 0 <= i < drawn.len() implies !active.contains(#[trigger] drawn[i]) by {
                    if i < drawn_before.len() {
                        assert(drawn[i] == drawn_before[i]);
                    }
                }
            }
        }
        let ghost grids_before = grids;
        let ghost graphs_before = graphs;
        let ghost drawn_before = drawn;
        self.mutate_node(first);
        proof {
            grids = grids.push(self.nodes_grid@);
            graphs = graphs.push(self.cgp_edges@);
            drawn = drawn.push(first);
            assert forall|i: int| 0 <= i < drawn.len() implies dag_mutated_at(
                params,
                grids[i],
                graphs[i],
                grids[i + 1],
                graphs[i + 1],
                (#[trigger] drawn[i]) as int,
            ) by {
                if i < drawn_before.len() {
                    assert(dag_mutated_at(
                        params,
                        grids_before[i],
                        graphs_before[i],
                        grids_before[i + 1],
                        graphs_before[i + 1],
                        drawn_before[i] as int,
                    ));
                }
            }
            assert forall|i: int| 0 <= i < drawn.len() - 1 implies !active.contains(#[trigger] drawn[i]) by {
                assert(drawn[i] == drawn_before[i]);
            }
            assert(is_dag_mutation_until_active(
                params,
                old(self).nodes_grid@,
                old(self).cgp_edges@,
                self.nodes_grid@,
                self.cgp_edges@,
                active,
                Some(first),
                grids,
                graphs,
                drawn,
            ));
        }
        Some(first)
    }

    /// Mutates each computational node and output, in the order of their
    /// positions, with a chance of `threshold` in `MUTATION_DRAWS`: none where
    /// `threshold` is 0, each of them from `MUTATION_DRAWS` on.
    pub fn mutate_prob(&mut self, threshold: u32)
        requires
            old(self).wf(),
        ensures
            final(self).wf(),
            final(self).same_frame(old(self)),
            forall|v: int|
                0 <= v < old(self).params.nbr_inputs ==> final(self).nodes_grid@[v] == old(self).nodes_grid@[v],
            threshold == 0 ==> final(self).nodes_grid@ == old(self).nodes_grid@ && final(self).cgp_edges@
                == old(self).cgp_edges@,
            exists|grids: Seq<Seq<NodeDAG>>, graphs: Seq<Seq<Seq<usize>>>| #[trigger]
                is_dag_mutation_of_each(
                    old(self).params,
                    old(self).nodes_grid@,
                    old(self).cgp_edges@,
                    final(self).nodes_grid@,
                    final(self).cgp_edges@,
                    threshold,
                    grids,
                    graphs,
                ),
    {
        let start_id = self.params.nbr_inputs;
        let end_id = self.nodes_grid.len();
        assert(self.params.total() == self.nodes_grid.len());
        let ghost params = self.params;
        let ghost mut grids: Seq<Seq<NodeDAG>> = seq![self.nodes_grid@];
        let ghost mut graphs: Seq<Seq<Seq<usize>>> = seq![self.cgp_edges@];
        let mut node_id = start_id;
        while node_id < end_id
            invariant
                self.wf(),
                self.same_frame(old(self)),
                params == self.params,
                start_id == self.params.nbr_inputs,
                end_id == self.nodes_grid@.len(),
                end_id == old(self).nodes_grid@.len(),
                start_id <= node_id <= end_id,
                forall|v: int| 0 <= v < start_id ==> self.nodes_grid@[v] == old(self).nodes_grid@[v],
                threshold == 0 ==> self.nodes_grid@ =~= old(self).nodes_grid@ && self.cgp_edges@
                    == old(self).cgp_edges@,
                grids.len() == node_id - start_id + 1,
                graphs.len() == grids.len(),
                grids[0] == old(self).nodes_grid@,
                graphs[0] == old(self).cgp_edges@,
                grids[grids.len() - 1] == self.nodes_grid@,
                graphs[grids.len() - 1] == self.cgp_edges@,
                forall|k: int|
                    0 <= k < grids.len() - 1 ==> #[trigger] is_dag_step(params, grids, graphs, threshold, k),
            decreases end_id - node_id,
        {
            let ghost grids_before = grids;
            let ghost graphs_before = graphs;
            if draw_mutation(threshold) {
                self.mutate_node(node_id);
            }
            proof {
                grids = grids.push(self.nodes_grid@);
                graphs = graphs.push(self.cgp_edges@);
                assert forall|k: int| 0 <= k < grids.len() - 1 implies #[trigger] is_dag_step(
                    params,
                    grids,
                    graphs,
                    threshold,
                    k,
                ) by {
                    if k < grids_before.len() - 1 {
                        assert(is_dag_step(params, grids_before, graphs_before, threshold, k));
                        assert(grids[k] == grids_before[k] && grids[k + 1] == grids_before[k + 1]);
                        assert(graphs[k] == graphs_before[k] && graphs[k + 1] == graphs_before[k + 1]);
                    } else {
                        assert(k == node_id - start_id);
                        assert(grids[k] == grids_before[k] && graphs[k] == graphs_before[k]);
                    }
                }
            }
            node_id += 1;
        }
        proof {
            assert(is_dag_mutation_of_each(
                params,
                old(self).nodes_grid@,
                old(self).cgp_edges@,
                self.nodes_grid@,
                self.cgp_edges@,
                threshold,
                grids,
                graphs,
            ));
        }
    }
}

/// Edges that follow dependencies backward close no cycle where the
/// dependencies have none.
pub proof fn lemma_no_cycle_among_dependencies(d: Seq<Seq<usize>>, edges: Seq<(usize, usize)>, removed: Seq<usize>)
    requires
        acyclic(d),
        forall|e: int| 0 <= e < edges.len() ==> has_edge(d, (#[trigger] edges[e]).1 as int, edges[e].0 as int),
    ensures
        !has_cycle(edges, removed),
{
    if has_cycle(edges, removed) {
        let w = choose|w: Seq<usize>|
            w.len() >= 2 && #[trigger] w.first() == w.last() && forall|i: int|
                0 <= i < w.len() - 1 ==> is_edge(edges, removed, #[trigger] w[i], w[i + 1]);
        let n = w.len() as int;
        let p = Seq::new(w.len(), |i: int| w[n - 1 - i] as int);
        assert forall|i: int| 0 <= i < p.len() - 1 implies has_edge(d, #[trigger] p[i], p[i + 1]) by {
            let j = n - 2 - i;
            assert(is_edge(edges, removed, w[j], w[j + 1]));
            let e = choose|e: int| 0 <= e < edges.len() && #[trigger] edges[e] == (w[j], w[j + 1]);
            assert(has_edge(d, edges[e].1 as int, edges[e].0 as int));
        }
        assert(is_walk(d, p));
        assert(p.last() == w[0] as int);
        assert(p[0] == w[n - 1] as int);
        assert(reaches(d, p[0], p[0]));
    }
}

} // verus!
