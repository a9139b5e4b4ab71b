//! A graph in the numeric array encoding. The library holds its structure:
//! construction, active nodes, mutation, and the decoding of ant choices into
//! functions and connections.

use vstd::prelude::*;
use crate::cgp_es::node::{Node, NBR_BINARY_FUNCTIONS, NBR_FUNCTIONS};
use crate::global_params::CgpParameters;
use crate::utils::ant::{
    decode_one_table, decode_pair, spec_decode_one_table, spec_decode_pair, spec_one_table_allowed,
    spec_two_table_allowed,
};
use crate::utils::graph::{
    array_layout, ascending, collect_marked, contains, dep_graph, first_listed, gene_deps, genes,
    is_evaluation_order, is_first_listed, lemma_array_layout,
    lemma_ascending_active_is_evaluation_order, lists_active, mark_active, output_positions,
    placed_before, role_at, GraphNode,
};
use crate::utils::node_type::NodeType;
use crate::utils::random::{draw_mutation, random_below, MUTATION_DRAWS};

verus! {

/// A graph of the numeric array encoding: the nodes by position, the
/// positions of the outputs, and the cached positions of the active nodes.
pub struct Chromosome {
    pub params: CgpParameters,
    pub nodes_grid: Vec<Node>,
    pub output_node_ids: Vec<usize>,
    pub active_nodes: Option<Vec<usize>>,
}

/// The grid holds inputs, then computational nodes, then outputs, each node at
/// its position and wired as its role asks.
pub open spec fn nodes_wf(params: CgpParameters, nodes: Seq<Node>) -> bool {
    &&& nodes.len() == params.total()
    &&& forall|v: int|
        0 <= v < nodes.len() ==> {
            let node = #[trigger] nodes[v];
            &&& node.wf()
            &&& node.position == v
            &&& node.nbr_inputs == params.nbr_inputs
            &&& node.graph_width == params.graph_width
            &&& node.node_type == role_at(v, params.nbr_inputs as int, params.graph_width as int)
        }
}

/// Whether the grid is well-formed.
pub fn check_nodes(params: &CgpParameters, nodes: &Vec<Node>) -> (b: bool)
    ensures
        b == nodes_wf(*params, nodes@),
{
    assert(nodes@.len() == nodes.len());
    let total = match params.nbr_inputs.checked_add(params.graph_width) {
        Some(range) => match range.checked_add(params.nbr_outputs) {
            Some(total) => total,
            None => {
                return false;
            },
        },
        None => {
            return false;
        },
    };
    if nodes.len() != total {
        return false;
    }
    let mut v: usize = 0;
    while v < total
        invariant
            total == params.total(),
            nodes@.len() == total,
            v <= total,
            forall|u: int|
                0 <= u < v ==> {
                    let node = #[trigger] nodes@[u];
                    &&& node.wf()
                    &&& node.position == u
                    &&& node.nbr_inputs == params.nbr_inputs
                    &&& node.graph_width == params.graph_width
                    &&& node.node_type == role_at(u, params.nbr_inputs as int, params.graph_width as int)
                },
        decreases total - v,
    {
        let node = nodes[v];
        let role_fits = match node.node_type {
            NodeType::InputNode => v < params.nbr_inputs,
            NodeType::ComputationalNode => params.nbr_inputs <= v && v < params.nbr_inputs + params.graph_width,
            NodeType::OutputNode => params.nbr_inputs + params.graph_width <= v,
        };
        if !(node.check_wf() && node.position == v && node.nbr_inputs == params.nbr_inputs && node.graph_width
            == params.graph_width && role_fits) {
            return false;
        }
        v += 1;
    }
    true
}

/// Whether the listed outputs are the positions behind the computational
/// nodes.
pub fn check_outputs(params: &CgpParameters, outputs: &Vec<usize>) -> (b: bool)
    requires
        params.total() <= usize::MAX,
    ensures
        b == (outputs@ == output_positions(
            params.nbr_inputs as int,
            params.graph_width as int,
            params.nbr_outputs as int,
        )),
{
    let ghost expected = output_positions(
        params.nbr_inputs as int,
        params.graph_width as int,
        params.nbr_outputs as int,
    );
    if outputs.len() != params.nbr_outputs {
        return false;
    }
    let first = params.nbr_inputs + params.graph_width;
    let mut k: usize = 0;
    while k < outputs.len()
        invariant
            params.total() <= usize::MAX,
            first == params.nbr_inputs + params.graph_width,
            outputs@.len() == params.nbr_outputs,
            expected == output_positions(
                params.nbr_inputs as int,
                params.graph_width as int,
                params.nbr_outputs as int,
            ),
            k <= outputs@.len(),
            forall|i: int| 0 <= i < k ==> outputs@[i] == first + i,
        decreases outputs@.len() - k,
    {
        if outputs[k] != first + k {
            assert(outputs@[k as int] != expected[k as int]);
            return false;
        }
        k += 1;
    }
    assert(outputs@ =~= expected);
    true
}

/// A well-formed grid has the array layout.
pub proof fn lemma_grid_layout(params: CgpParameters, nodes: Seq<Node>)
    requires
        nodes_wf(params, nodes),
    ensures
        array_layout(
            genes(nodes),
            params.nbr_inputs as int,
            params.graph_width as int,
            params.nbr_outputs as int,
        ),
{
    let gs = genes(nodes);
    assert forall|v: int| 0 <= v < gs.len() implies if v < params.nbr_inputs {
        (#[trigger] gs[v]).node_type == NodeType::InputNode
    } else if v < params.nbr_inputs + params.graph_width {
        &&& gs[v].node_type == NodeType::ComputationalNode
        &&& gs[v].connection1 < v
        &&& gs[v].connection2 < v
    } else {
        &&& gs[v].node_type == NodeType::OutputNode
        &&& gs[v].connection1 < params.nbr_inputs + params.graph_width
    } by {
        let node = nodes[v];
        assert(node.wf());
        assert(gs[v] == node.gene());
    }
}

/// The node at row `j` of the tables after the ant of the two-table layout
/// has been written into it: a computational node takes its function from
/// `func_ant` and its pair of connections from `conn_ant`, an output its
/// connection from `conn_ant`.
pub open spec fn with_two_table_choice(
    params: CgpParameters,
    node: Node,
    j: int,
    func_ant: Seq<usize>,
    conn_ant: Seq<usize>,
) -> Node {
    let range = params.nbr_inputs + params.graph_width;
    if j < params.graph_width {
        Node {
            function_id: func_ant[j],
            connection1: spec_decode_pair(conn_ant[j] as int, range).0 as usize,
            connection2: spec_decode_pair(conn_ant[j] as int, range).1 as usize,
            ..node
        }
    } else {
        Node { connection1: conn_ant[j], ..node }
    }
}

/// The ant of the two-table layout names, for every computational node, a
/// known function and two connections before the node, and for every output
/// a connection before the outputs.
pub open spec fn two_table_ant_fits(params: CgpParameters, func_ant: Seq<usize>, conn_ant: Seq<usize>) -> bool {
    let range = params.nbr_inputs + params.graph_width;
    &&& forall|j: int|
        0 <= j < params.graph_width ==> {
            &&& (#[trigger] func_ant[j]) < NBR_FUNCTIONS
            &&& spec_decode_pair(conn_ant[j] as int, range).0 < params.nbr_inputs + j
            &&& spec_decode_pair(conn_ant[j] as int, range).1 < params.nbr_inputs + j
        }
    &&& forall|j: int|
        params.graph_width <= j < params.graph_width + params.nbr_outputs ==> (#[trigger] conn_ant[j]) < range
}

/// The node at row `j` of the table after the ant of the one-table layout has
/// been written into it: a computational node takes its function and its
/// first connection from the choice, and its second connection where the
/// choice names one; an output takes the column as its connection.
pub open spec fn with_one_table_choice(
    params: CgpParameters,
    two_conn_constant: usize,
    node: Node,
    j: int,
    ant: Seq<usize>,
) -> Node {
    let range = params.nbr_inputs + params.graph_width;
    if j < params.graph_width {
        let choice = spec_decode_one_table(ant[j] as int, range, two_conn_constant as int);
        Node {
            function_id: choice.function_id,
            connection1: choice.connection1,
            connection2: match choice.connection2 {
                Some(c) => c,
                None => node.connection2,
            },
            ..node
        }
    } else {
        Node { connection1: ant[j], ..node }
    }
}

/// The ant of the one-table layout names, for every computational node, a
/// known function and connections before the node, and for every output a
/// connection before the outputs.
pub open spec fn one_table_ant_fits(params: CgpParameters, two_conn_constant: usize, ant: Seq<usize>) -> bool {
    let range = params.nbr_inputs + params.graph_width;
    &&& forall|j: int|
        0 <= j < params.graph_width ==> {
            let choice = spec_decode_one_table((#[trigger] ant[j]) as int, range, two_conn_constant as int);
            &&& choice.function_id < NBR_FUNCTIONS
            &&& choice.connection1 < params.nbr_inputs + j
            &&& choice.connection2 matches Some(c) ==> c < params.nbr_inputs + j
        }
    &&& forall|j: int| params.graph_width <= j < params.graph_width + params.nbr_outputs ==> (#[trigger] ant[j]) < range
}

/// An ant that names known functions and, for its connections, cells that
/// the two-table layout allows, fits.
pub proof fn lemma_allowed_cells_fit(params: CgpParameters, func_ant: Seq<usize>, conn_ant: Seq<usize>)
    requires
        forall|j: int| 0 <= j < params.graph_width ==> (#[trigger] func_ant[j]) < NBR_FUNCTIONS,
        forall|j: int|
            0 <= j < params.graph_width + params.nbr_outputs ==> spec_two_table_allowed(
                params,
                j,
                (#[trigger] conn_ant[j]) as int,
            ),
    ensures
        two_table_ant_fits(params, func_ant, conn_ant),
{
    let range = params.nbr_inputs + params.graph_width;
    assert forall|j: int| 0 <= j < params.graph_width implies {
        &&& (#[trigger] func_ant[j]) < NBR_FUNCTIONS
        &&& spec_decode_pair(conn_ant[j] as int, range).0 < params.nbr_inputs + j
        &&& spec_decode_pair(conn_ant[j] as int, range).1 < params.nbr_inputs + j
    } by {
        assert(spec_two_table_allowed(params, j, conn_ant[j] as int));
    }
    assert forall|j: int| params.graph_width <= j < params.graph_width + params.nbr_outputs implies (
    #[trigger] conn_ant[j]) < range by {
        assert(spec_two_table_allowed(params, j, conn_ant[j] as int));
    }
}

/// An ant that fits names, for its connections, cells that the two-table
/// layout allows: what is laid down along a fitting ant lands on such cells.
pub proof fn lemma_fitting_ant_uses_allowed_cells(
    params: CgpParameters,
    func_ant: Seq<usize>,
    conn_ant: Seq<usize>,
    j: int,
)
    requires
        two_table_ant_fits(params, func_ant, conn_ant),
        0 <= j < params.graph_width + params.nbr_outputs,
    ensures
        spec_two_table_allowed(params, j, conn_ant[j] as int),
{
    if j < params.graph_width {
        assert(func_ant[j] < NBR_FUNCTIONS);
    } else {
        assert(conn_ant[j] < params.nbr_inputs + params.graph_width);
    }
}

/// An ant that names known functions and cells that the one-table layout
/// allows fits.
pub proof fn lemma_allowed_one_table_cells_fit(params: CgpParameters, two_conn_constant: usize, ant: Seq<usize>)
    requires
        forall|j: int|
            0 <= j < params.graph_width ==> spec_decode_one_table(
                (#[trigger] ant[j]) as int,
                params.nbr_inputs + params.graph_width,
                two_conn_constant as int,
            ).function_id < NBR_FUNCTIONS,
        forall|j: int|
            0 <= j < params.graph_width + params.nbr_outputs ==> spec_one_table_allowed(
                params,
                two_conn_constant as int,
                j,
                (#[trigger] ant[j]) as int,
            ),
    ensures
        one_table_ant_fits(params, two_conn_constant, ant),
{
    let range = params.nbr_inputs + params.graph_width;
    assert forall|j: int| 0 <= j < params.graph_width implies {
        let choice = spec_decode_one_table((#[trigger] ant[j]) as int, range, two_conn_constant as int);
        &&& choice.function_id < NBR_FUNCTIONS
        &&& choice.connection1 < params.nbr_inputs + j
        &&& choice.connection2 matches Some(c) ==> c < params.nbr_inputs + j
    } by {
        assert(spec_one_table_allowed(params, two_conn_constant as int, j, ant[j] as int));
    }
    assert forall|j: int| params.graph_width <= j < params.graph_width + params.nbr_outputs implies (
    #[trigger] ant[j]) < range by {
        assert(spec_one_table_allowed(params, two_conn_constant as int, j, ant[j] as int));
    }
}

/// One step of the evaluation of a graph: the node at `position` gets its
/// value from the values at `first` and `second`.
#[derive(Clone, Copy, Debug)]
pub struct EvaluationStep {
    pub position: usize,
    pub node_type: NodeType,
    pub function_id: usize,
    /// For an input its own position, whose column of the samples it reads;
    /// else the first connection.
    pub first: usize,
    /// The second connection of a function that reads both; else `first`.
    pub second: usize,
}

/// The step that evaluates `node`: a function that reads both connections
/// gets both, another function and an output get the first connection twice.
pub open spec fn step_of(node: Node) -> EvaluationStep {
    let first = if node.node_type == NodeType::InputNode {
        node.position
    } else {
        node.connection1
    };
    let second = if node.node_type == NodeType::ComputationalNode && node.function_id < NBR_BINARY_FUNCTIONS {
        node.connection2
    } else {
        first
    };
    EvaluationStep {
        position: node.position,
        node_type: node.node_type,
        function_id: node.function_id,
        first,
        second,
    }
}

/// `new` is the grid `old` after one mutation of the node at `v`, a
/// computational node or an output; every other node is as it was.
pub open spec fn mutated_at(params: CgpParameters, old: Seq<Node>, new: Seq<Node>, v: int) -> bool {
    &&& params.nbr_inputs <= v < old.len()
    &&& new.len() == old.len()
    &&& old[v].mutated_to(new[v])
    &&& forall|u: int| 0 <= u < old.len() && u != v ==> new[u] == old[u]
}

/// Each grid of `grids` comes from the grid before it by one mutation, of the
/// node that `draws` names at that place.
pub open spec fn is_mutation_trace(params: CgpParameters, grids: Seq<Seq<Node>>, draws: Seq<usize>) -> bool {
    &&& grids.len() == draws.len() + 1
    &&& forall|i: int|
        0 <= i < draws.len() ==> mutated_at(params, grids[i], grids[i + 1], (#[trigger] draws[i]) as int)
}

/// What mutation until an active node is hit does, told by the nodes drawn
/// and the grids passed through. The grid `new` comes from `old` by one
/// mutation for every node of `draws`. Only the last of them may stand in
/// `active`: it does, and is named by `hit`. Where `usize::MAX` draws have
/// missed, the last of `draws` is no draw but the first computational node or
/// output of `active`. `hit` is `None`, and nothing is mutated, only where
/// `active` holds no computational node and no output.
pub open spec fn is_mutation_until_active(
    params: CgpParameters,
    old: Seq<Node>,
    new: Seq<Node>,
    active: Seq<usize>,
    hit: Option<usize>,
    grids: Seq<Seq<Node>>,
    draws: Seq<usize>,
) -> bool {
    &&& is_mutation_trace(params, grids, draws)
    &&& grids[0] == old
    &&& grids[draws.len() as int] == new
    &&& forall|i: int| 0 <= i < draws.len() - 1 ==> !active.contains(#[trigger] draws[i])
    &&& draws.len() <= usize::MAX + 1
    &&& match hit {
        Some(v) => {
            &&& draws.len() > 0
            &&& draws[draws.len() - 1] == v
            &&& active.contains(v)
            &&& draws.len() == usize::MAX + 1 ==> is_first_listed(
                active,
                params.nbr_inputs as int,
                old.len() as int,
                v,
            )
        },
        None => draws.len() == 0 && forall|v: usize| params.nbr_inputs <= v < old.len() ==> !active.contains(v),
    }
}

/// What mutation of each node with a chance does: the inputs stay; every
/// computational node and output stays or is mutated once; all stay where the
/// chance is 0, and all are mutated where it is certain.
pub open spec fn is_mutation_of_each(params: CgpParameters, old: Seq<Node>, new: Seq<Node>, threshold: u32) -> bool {
    &&& new.len() == old.len()
    &&& forall|v: int| 0 <= v < params.nbr_inputs && v < old.len() ==> (#[trigger] new[v]) == old[v]
    &&& forall|v: int|
        params.nbr_inputs <= v < old.len() ==> (#[trigger] new[v]) == old[v] || old[v].mutated_to(new[v])
    &&& threshold == 0 ==> new == old
    &&& threshold >= MUTATION_DRAWS ==> forall|v: int|
        params.nbr_inputs <= v < old.len() ==> (#[trigger] old[v]).mutated_to(new[v])
}

impl Clone for Chromosome {
    fn clone(&self) -> (r: Self)
        ensures
            r.same_as(self),
    {
        let nodes_grid = self.nodes_grid.clone();
        let output_node_ids = self.output_node_ids.clone();
        let active_nodes = match &self.active_nodes {
            Some(active) => {
                let copy = active.clone();
                assert(copy@ =~= active@);
                Some(copy)
            },
            None => None,
        };
        assert(nodes_grid@ =~= self.nodes_grid@);
        assert(output_node_ids@ =~= self.output_node_ids@);
        Self { params: self.params, nodes_grid, output_node_ids, active_nodes }
    }
}

impl Chromosome {
    /// The grid holds inputs, then computational nodes, then outputs, each node
    /// at its position and wired as its role asks.
    pub open spec fn wf(&self) -> bool {
        &&& nodes_wf(self.params, self.nodes_grid@)
        &&& self.output_node_ids@ == output_positions(
            self.params.nbr_inputs as int,
            self.params.graph_width as int,
            self.params.nbr_outputs as int,
        )
    }

    /// The two graphs hold the same parameters, nodes, outputs and cache.
    pub open spec fn same_as(&self, other: &Self) -> bool {
        &&& self.params == other.params
        &&& self.nodes_grid@ == other.nodes_grid@
        &&& self.output_node_ids@ == other.output_node_ids@
        &&& self.active_nodes is Some == other.active_nodes is Some
        &&& self.active_nodes is Some ==> self.active_nodes->0@ == other.active_nodes->0@
    }

    /// The cached list of active nodes is there and fits the grid: ascending,
    /// holding exactly the positions that influence an output, so that every
    /// node stands after the nodes it reads.
    pub open spec fn active_is_current(&self) -> bool {
        &&& self.active_nodes matches Some(active)
        &&& ascending(active@)
        &&& lists_active(genes(self.nodes_grid@), self.output_node_ids@, active@)
        &&& is_evaluation_order(genes(self.nodes_grid@), active@)
    }

    /// `other` has the parameters, the outputs and the cached active nodes of
    /// this graph.
    pub open spec fn same_frame(&self, other: &Self) -> bool {
        &&& self.params == other.params
        &&& self.output_node_ids@ == other.output_node_ids@
        &&& self.active_nodes is Some == other.active_nodes is Some
        &&& self.active_nodes is Some ==> self.active_nodes->0@ == other.active_nodes->0@
    }

    /// Whether the graph is well-formed.
    pub fn check_wf(&self) -> (b: bool)
        ensures
            b == self.wf(),
    {
        if !check_nodes(&self.params, &self.nodes_grid) {
            return false;
        }
        assert(self.params.total() == self.nodes_grid.len());
        check_outputs(&self.params, &self.output_node_ids)
    }

    /// A graph of random nodes.
    pub fn new(params: CgpParameters) -> (r: Self)
        requires
            params.wf(),
        ensures
            r.wf(),
            r.params == params,
            r.active_nodes is None,
    {
        let nbr_inputs = params.nbr_inputs;
        let graph_width = params.graph_width;
        let total = params.nbr_inputs + params.graph_width + params.nbr_outputs;
        let mut nodes_grid: Vec<Node> = Vec::with_capacity(total);
        let mut output_node_ids: Vec<usize> = Vec::with_capacity(params.nbr_outputs);
        let mut position: usize = 0;
        while position < total
            invariant
                params.wf(),
                nbr_inputs == params.nbr_inputs,
                graph_width == params.graph_width,
                total == params.total(),
                position <= total,
                nodes_grid@.len() == position,
                forall|v: int|
                    0 <= v < position ==> {
                        let node = #[trigger] nodes_grid@[v];
                        &&& node.wf()
                        &&& node.position == v
                        &&& node.nbr_inputs == nbr_inputs
                        &&& node.graph_width == graph_width
                        &&& node.node_type == role_at(v, nbr_inputs as int, graph_width as int)
                    },
            decreases total - position,
        {
            let node_type = if position < nbr_inputs {
                NodeType::InputNode
            } else if position < nbr_inputs + graph_width {
                NodeType::ComputationalNode
            } else {
                NodeType::OutputNode
            };
            nodes_grid.push(Node::new(position, nbr_inputs, graph_width, node_type));
            position += 1;
        }
        let mut k: usize = 0;
        while k < params.nbr_outputs
            invariant
                params.wf(),
                k <= params.nbr_outputs,
                output_node_ids@.len() == k,
                forall|i: int| 0 <= i < k ==> output_node_ids@[i] == params.nbr_inputs + params.graph_width + i,
            decreases params.nbr_outputs - k,
        {
            output_node_ids.push(params.nbr_inputs + params.graph_width + k);
            k += 1;
        }
        assert(output_node_ids@ =~= output_positions(
            params.nbr_inputs as int,
            params.graph_width as int,
            params.nbr_outputs as int,
        ));
        Self { params, nodes_grid, output_node_ids, active_nodes: None }
    }

    /// Finds the nodes that influence an output and caches their positions in
    /// ascending order, which is an order in which they can be evaluated. A
    /// computational node with one of the first four functions reads both
    /// connections, another only the first.
    pub fn get_active_nodes_id(&mut self)
        requires
            old(self).wf(),
        ensures
            final(self).wf(),
            final(self).params == old(self).params,
            final(self).nodes_grid@ == old(self).nodes_grid@,
            final(self).output_node_ids@ == old(self).output_node_ids@,
            final(self).active_is_current(),
    {
        proof {
            lemma_grid_layout(self.params, self.nodes_grid@);
            lemma_array_layout(
                genes(self.nodes_grid@),
                self.params.nbr_inputs as int,
                self.params.graph_width as int,
                self.params.nbr_outputs as int,
            );
            assert(self.params.total() == self.nodes_grid.len());
        }
        let marked = mark_active(&self.nodes_grid, &self.output_node_ids);
        let active = collect_marked(&marked);
        proof {
            lemma_ascending_active_is_evaluation_order(genes(self.nodes_grid@), self.output_node_ids@, active@);
        }
        self.active_nodes = Some(active);
    }

    /// The steps that evaluate the graph: one for every active node, in the
    /// order of the cached list. What a step reads, an earlier step has
    /// evaluated.
    pub fn evaluation_steps(&self) -> (steps: Vec<EvaluationStep>)
        requires
            self.wf(),
            self.active_is_current(),
        ensures
            steps@.len() == self.active_nodes->0@.len(),
            forall|k: int|
                0 <= k < steps@.len() ==> (#[trigger] steps@[k]) == step_of(
                    self.nodes_grid@[self.active_nodes->0@[k] as int],
                ) && steps@[k].position == self.active_nodes->0@[k],
            forall|k: int|
                0 <= k < steps@.len() && (#[trigger] steps@[k]).node_type != NodeType::InputNode ==> placed_before(
                    self.active_nodes->0@,
                    k,
                    steps@[k].first,
                ) && placed_before(self.active_nodes->0@, k, steps@[k].second),
    {
        let mut steps: Vec<EvaluationStep> = Vec::new();
        let ghost gs = genes(self.nodes_grid@);
        match &self.active_nodes {
            Some(active) => {
                let mut k: usize = 0;
                while k < active.len()
                    invariant
                        self.wf(),
                        gs == genes(self.nodes_grid@),
                        is_evaluation_order(gs, active@),
                        k <= active@.len(),
                        steps@.len() == k,
                        forall|j: int|
                            0 <= j < k ==> (#[trigger] steps@[j]) == step_of(self.nodes_grid@[active@[j] as int])
                                && steps@[j].position == active@[j],
                        forall|j: int|
                            0 <= j < k && (#[trigger] steps@[j]).node_type != NodeType::InputNode
                                ==> placed_before(active@, j, steps@[j].first) && placed_before(
                                active@,
                                j,
                                steps@[j].second,
                            ),
                    decreases active@.len() - k,
                {
                    let node = self.nodes_grid[active[k]];
                    proof {
                        let v = active@[k as int] as int;
                        assert(node.wf() && node.position == v);
                        assert(gs[v] == node.gene());
                        let deps = dep_graph(gs)[v];
                        assert(deps == gene_deps(node.gene()));
                        if node.node_type != NodeType::InputNode {
                            assert(placed_before(active@, k as int, deps[0]));
                            if node.node_type == NodeType::ComputationalNode && node.function_id
                                < NBR_BINARY_FUNCTIONS {
                                assert(placed_before(active@, k as int, deps[1]));
                            }
                        }
                    }
                    let first = match node.node_type {
                        NodeType::InputNode => node.position,
                        _ => node.connection1,
                    };
                    let reads_both = match node.node_type {
                        NodeType::ComputationalNode => node.function_id < NBR_BINARY_FUNCTIONS,
                        _ => false,
                    };
                    let second = if reads_both {
                        node.connection2
                    } else {
                        first
                    };
                    steps.push(
                        EvaluationStep {
                            position: node.position,
                            node_type: node.node_type,
                            function_id: node.function_id,
                            first,
                            second,
                        },
                    );
                    k += 1;
                }
            },
            None => {},
        }
        steps
    }

    /// Applies one mutation to the node at `node_id`.
    fn mutate_node(&mut self, node_id: usize)
        requires
            old(self).wf(),
            old(self).params.nbr_inputs <= node_id < old(self).nodes_grid@.len(),
        ensures
            final(self).wf(),
            final(self).same_frame(old(self)),
            final(self).active_nodes == old(self).active_nodes,
            final(self).nodes_grid@.len() == old(self).nodes_grid@.len(),
            old(self).nodes_grid@[node_id as int].mutated_to(final(self).nodes_grid@[node_id as int]),
            forall|v: int|
                0 <= v < old(self).nodes_grid@.len() && v != node_id ==> final(self).nodes_grid@[v]
                    == old(self).nodes_grid@[v],
            mutated_at(old(self).params, old(self).nodes_grid@, final(self).nodes_grid@, node_id as int),
    {
        let mut node = self.nodes_grid[node_id];
        assert(node.wf() && node.position == node_id);
        node.mutate();
        self.nodes_grid[node_id] = node;
    }

    /// Mutates nodes drawn at random among the computational nodes and outputs
    /// until a drawn node stands in the cached list of active nodes, and names
    /// that node. Where `usize::MAX` draws have missed, the first
    /// computational node or output of the list is mutated and named. None is
    /// named, and nothing is mutated, only where the list holds no
    /// computational node and no output.
    pub fn mutate_single(&mut self) -> (hit: Option<usize>)
        requires
            old(self).wf(),
            old(self).active_nodes is Some,
        ensures
            final(self).wf(),
            final(self).same_frame(old(self)),
            forall|v: int|
                0 <= v < old(self).params.nbr_inputs ==> final(self).nodes_grid@[v] == old(self).nodes_grid@[v],
            hit is Some <==> exists|v: usize|
                old(self).params.nbr_inputs <= v < old(self).nodes_grid@.len() && old(self).active_nodes->0@.contains(
                    v,
                ),
            hit is None ==> final(self).nodes_grid@ == old(self).nodes_grid@,
            hit matches Some(v) ==> old(self).params.nbr_inputs <= v < old(self).nodes_grid@.len() && old(
                self,
            ).active_nodes->0@.contains(v),
            exists|grids: Seq<Seq<Node>>, draws: Seq<usize>| #[trigger]
                is_mutation_until_active(
                    old(self).params,
                    old(self).nodes_grid@,
                    final(self).nodes_grid@,
                    old(self).active_nodes->0@,
                    hit,
                    grids,
                    draws,
                ),
    {
        assert(self.params.total() == self.nodes_grid.len());
        let ghost params = self.params;
        let ghost active = self.active_nodes->0@;
        let ghost mut grids: Seq<Seq<Node>> = seq![self.nodes_grid@];
        let ghost mut drawn: Seq<usize> = Seq::empty();
        let start_id = self.params.nbr_inputs;
        let end_id = self.nodes_grid.len();
        let listed = match &self.active_nodes {
            Some(active) => first_listed(active, start_id, end_id),
            None => None,
        };
        let first = match listed {
            Some(first) => first,
            None => {
                assert(is_mutation_until_active(
                    params,
                    old(self).nodes_grid@,
                    self.nodes_grid@,
                    active,
                    None,
                    grids,
                    drawn,
                ));
                return None;
            },
        };
        let mut draws: usize = 0;
        while draws < usize::MAX
            invariant
                self.wf(),
                self.same_frame(old(self)),
                self.active_nodes == old(self).active_nodes,
                self.active_nodes is Some,
                params == self.params,
                active == old(self).active_nodes->0@,
                start_id == self.params.nbr_inputs,
                end_id == self.nodes_grid@.len(),
                end_id == old(self).nodes_grid@.len(),
                start_id <= first < end_id,
                active.contains(first),
                is_first_listed(active, start_id as int, end_id as int, first),
                forall|v: int| 0 <= v < start_id ==> self.nodes_grid@[v] == old(self).nodes_grid@[v],
                drawn.len() == draws,
                is_mutation_trace(params, grids, drawn),
                grids[0] == old(self).nodes_grid@,
                grids[drawn.len() as int] == self.nodes_grid@,
                forall|i: int| 0 <= i < drawn.len() ==> !active.contains(#[trigger] drawn[i]),
            decreases usize::MAX - draws,
        {
            draws += 1;
            let random_node_id = start_id + random_below(end_id - start_id);
            let ghost grids_before = grids;
            let ghost drawn_before = drawn;
            self.mutate_node(random_node_id);
            proof {
                grids = grids.push(self.nodes_grid@);
                drawn = drawn.push(random_node_id);
                assert forall|i: int| 0 <= i < drawn.len() implies mutated_at(
                    params,
                    grids[i],
                    grids[i + 1],
                    (#[trigger] drawn[i]) as int,
                ) by {
                    if i < drawn_before.len() {
                        assert(mutated_at(params, grids_before[i], grids_before[i + 1], drawn_before[i] as int));
                    }
                }
            }
            let listed = match &self.active_nodes {
                Some(active) => contains(active, random_node_id),
                None => false,
            };
            if listed {
                proof {
                    assert forall|i: int| 0 <= i < drawn.len() - 1 implies !active.contains(
                        #[trigger] drawn[i],
                    ) by {
                        assert(drawn[i] == drawn_before[i]);
                    }
                    assert(is_mutation_until_active(
                        params,
                        old(self).nodes_grid@,
                        self.nodes_grid@,
                        active,
                        Some(random_node_id),
                        grids,
                        drawn,
                    ));
                }
                return Some(random_node_id);
            }
            proof {
                assert forall|i: int| 0 <= i < drawn.len() implies !active.contains(#[trigger] drawn[i]) by {
                    if i < drawn_before.len() {
                        assert(drawn[i] == drawn_before[i]);
                    }
                }
            }
        }
        let ghost grids_before = grids;
        let ghost drawn_before = drawn;
        self.mutate_node(first);
        proof {
            grids = grids.push(self.nodes_grid@);
            drawn = drawn.push(first);
            assert forall|i: int| 0 <= i < drawn.len() implies mutated_at(
                params,
                grids[i],
                grids[i + 1],
                (#[trigger] drawn[i]) as int,
            ) by {
                if i < drawn_before.len() {
                    assert(mutated_at(params, grids_before[i], grids_before[i + 1], drawn_before[i] as int));
                }
            }
            assert forall|i: int| 0 <= i < drawn.len() - 1 implies !active.contains(#[trigger] drawn[i]) by {
                assert(drawn[i] == drawn_before[i]);
            }
            assert(is_mutation_until_active(
                params,
                old(self).nodes_grid@,
                self.nodes_grid@,
                active,
                Some(first),
                grids,
                drawn,
            ));
        }
        Some(first)
    }

    /// Mutates each computational node and output with a chance of
    /// `threshold` in `MUTATION_DRAWS`: none where `threshold` is 0, each of
    /// them from `MUTATION_DRAWS` on. Whatever the chance, a node stays as it
    /// was or is mutated once.
    pub fn mutate_prob(&mut self, threshold: u32)
        requires
            old(self).wf(),
        ensures
            final(self).wf(),
            final(self).same_frame(old(self)),
            forall|v: int|
                0 <= v < old(self).params.nbr_inputs ==> final(self).nodes_grid@[v] == old(self).nodes_grid@[v],
            threshold == 0 ==> final(self).nodes_grid@ == old(self).nodes_grid@,
            threshold >= MUTATION_DRAWS ==> forall|v: int|
                old(self).params.nbr_inputs <= v < old(self).nodes_grid@.len() ==> (
                #[trigger] old(self).nodes_grid@[v]).mutated_to(final(self).nodes_grid@[v]),
            is_mutation_of_each(old(self).params, old(self).nodes_grid@, final(self).nodes_grid@, threshold),
    {
        assert(self.params.total() == self.nodes_grid.len());
        let start_id = self.params.nbr_inputs;
        let end_id = self.nodes_grid.len();
        let mut node_id = start_id;
        while node_id < end_id
            invariant
                self.wf(),
                self.same_frame(old(self)),
                start_id == self.params.nbr_inputs,
                end_id == self.nodes_grid@.len(),
                end_id == old(self).nodes_grid@.len(),
                start_id <= node_id <= end_id,
                forall|v: int| 0 <= v < start_id ==> self.nodes_grid@[v] == old(self).nodes_grid@[v],
                forall|v: int| node_id <= v < end_id ==> self.nodes_grid@[v] == old(self).nodes_grid@[v],
                threshold == 0 ==> self.nodes_grid@ =~= old(self).nodes_grid@,
                threshold >= MUTATION_DRAWS ==> forall|v: int|
                    start_id <= v < node_id ==> (#[trigger] old(self).nodes_grid@[v]).mutated_to(
                        self.nodes_grid@[v],
                    ),
                forall|v: int|
                    start_id <= v < node_id ==> (#[trigger] self.nodes_grid@[v]) == old(self).nodes_grid@[v] || old(
                        self,
                    ).nodes_grid@[v].mutated_to(self.nodes_grid@[v]),
            decreases end_id - node_id,
        {
            if draw_mutation(threshold) {
                self.mutate_node(node_id);
            }
            node_id += 1;
        }
    }

    /// Writes the choices of an ant of the two-table layout into the nodes:
    /// row `j` of the tables belongs to the node `j` places behind the inputs.
    /// The graph is well-formed afterwards if the ant fits.
    pub fn set_two_table_ant(&mut self, func_ant: &Vec<usize>, conn_ant: &Vec<usize>)
        requires
            old(self).wf(),
            func_ant@.len() >= old(self).params.graph_width,
            conn_ant@.len() >= old(self).params.graph_width + old(self).params.nbr_outputs,
        ensures
            final(self).same_frame(old(self)),
            final(self).nodes_grid@.len() == old(self).nodes_grid@.len(),
            forall|v: int|
                0 <= v < old(self).params.nbr_inputs && v < old(self).nodes_grid@.len()
                    ==> final(self).nodes_grid@[v] == old(self).nodes_grid@[v],
            forall|j: int|
                0 <= j < old(self).params.graph_width + old(self).params.nbr_outputs ==> (
                #[trigger] final(self).nodes_grid@[old(self).params.nbr_inputs + j]) == with_two_table_choice(
                    old(self).params,
                    old(self).nodes_grid@[old(self).params.nbr_inputs + j],
                    j,
                    func_ant@,
                    conn_ant@,
                ),
            two_table_ant_fits(old(self).params, func_ant@, conn_ant@) ==> final(self).wf(),
    {
        assert(self.params.total() == self.nodes_grid.len());
        let nbr_inputs = self.params.nbr_inputs;
        let graph_width = self.params.graph_width;
        let rows = self.params.graph_width + self.params.nbr_outputs;
        let range = self.params.nbr_inputs + self.params.graph_width;
        let ghost old_nodes = self.nodes_grid@;
        let ghost params = self.params;
        let mut j: usize = 0;
        while j < rows
            invariant
                self.same_frame(old(self)),
                self.params == params,
                params == old(self).params,
                old_nodes == old(self).nodes_grid@,
                nodes_wf(params, old_nodes),
                nbr_inputs == params.nbr_inputs,
                graph_width == params.graph_width,
                rows == params.graph_width + params.nbr_outputs,
                range == params.nbr_inputs + params.graph_width,
                nbr_inputs + rows == self.nodes_grid.len(),
                self.nodes_grid@.len() == old_nodes.len(),
                func_ant@.len() >= graph_width,
                conn_ant@.len() >= rows,
                j <= rows,
                forall|v: int|
                    0 <= v < old_nodes.len() && !(nbr_inputs <= v < nbr_inputs + j) ==> self.nodes_grid@[v]
                        == old_nodes[v],
                forall|k: int|
                    0 <= k < j ==> (#[trigger] self.nodes_grid@[nbr_inputs + k]) == with_two_table_choice(
                        params,
                        old_nodes[nbr_inputs + k],
                        k,
                        func_ant@,
                        conn_ant@,
                    ),
            decreases rows - j,
        {
            let mut node = self.nodes_grid[nbr_inputs + j];
            proof {
                let first = old_nodes[nbr_inputs as int];
                assert(first.wf() && first.position == nbr_inputs);
            }
            if j < graph_width {
                node.function_id = func_ant[j];
                let (conn1, conn2) = decode_pair(conn_ant[j], range);
                node.connection1 = conn1;
                node.connection2 = conn2;
            } else {
                node.connection1 = conn_ant[j];
            }
            self.nodes_grid[nbr_inputs + j] = node;
            j += 1;
        }
        proof {
            if two_table_ant_fits(params, func_ant@, conn_ant@) {
                assert forall|v: int| 0 <= v < self.nodes_grid@.len() implies {
                    let node = #[trigger] self.nodes_grid@[v];
                    &&& node.wf()
                    &&& node.position == v
                    &&& node.nbr_inputs == params.nbr_inputs
                    &&& node.graph_width == params.graph_width
                    &&& node.node_type == role_at(v, params.nbr_inputs as int, params.graph_width as int)
                } by {
                    assert(old_nodes[v].wf() && old_nodes[v].position == v);
                    if v >= nbr_inputs {
                        let k = v - nbr_inputs;
                        assert(self.nodes_grid@[nbr_inputs + k] == with_two_table_choice(
                            params,
                            old_nodes[nbr_inputs + k],
                            k,
                            func_ant@,
                            conn_ant@,
                        ));
                        if k < graph_width {
                            assert(func_ant@[k] < NBR_FUNCTIONS);
                        } else {
                            assert(conn_ant@[k] < range);
                        }
                    }
                }
            }
        }
    }

    /// Whether an ant of the two-table layout fits the graph.
    pub fn check_two_table_ant(&self, func_ant: &Vec<usize>, conn_ant: &Vec<usize>) -> (b: bool)
        requires
            self.wf(),
            func_ant@.len() >= self.params.graph_width,
            conn_ant@.len() >= self.params.graph_width + self.params.nbr_outputs,
        ensures
            b == two_table_ant_fits(self.params, func_ant@, conn_ant@),
    {
        assert(self.params.total() == self.nodes_grid.len());
        let nbr_inputs = self.params.nbr_inputs;
        let graph_width = self.params.graph_width;
        let rows = self.params.graph_width + self.params.nbr_outputs;
        let range = self.params.nbr_inputs + self.params.graph_width;
        let mut j: usize = 0;
        while j < rows
            invariant
                nbr_inputs == self.params.nbr_inputs,
                graph_width == self.params.graph_width,
                rows == self.params.graph_width + self.params.nbr_outputs,
                range == self.params.nbr_inputs + self.params.graph_width,
                nbr_inputs + rows <= usize::MAX,
                func_ant@.len() >= graph_width,
                conn_ant@.len() >= rows,
                j <= rows,
                forall|k: int|
                    0 <= k < j && k < graph_width ==> {
                        &&& (#[trigger] func_ant@[k]) < NBR_FUNCTIONS
                        &&& spec_decode_pair(conn_ant@[k] as int, range as int).0 < nbr_inputs + k
                        &&& spec_decode_pair(conn_ant@[k] as int, range as int).1 < nbr_inputs + k
                    },
                forall|k: int| graph_width <= k < j ==> (#[trigger] conn_ant@[k]) < range,
            decreases rows - j,
        {
            if j < graph_width {
                if func_ant[j] >= NBR_FUNCTIONS {
                    return false;
                }
                let (conn1, conn2) = decode_pair(conn_ant[j], range);
                if conn1 >= nbr_inputs + j || conn2 >= nbr_inputs + j {
                    return false;
                }
            } else {
                if conn_ant[j] >= range {
                    return false;
                }
            }
            j += 1;
        }
        true
    }

    /// Whether an ant of the one-table layout fits the graph.
    pub fn check_one_table_ant(&self, ant: &Vec<usize>, two_conn_constant: usize) -> (b: bool)
        requires
            self.wf(),
            ant@.len() >= self.params.graph_width + self.params.nbr_outputs,
            two_conn_constant > 0,
            (self.params.nbr_inputs + self.params.graph_width) * (self.params.nbr_inputs + self.params.graph_width)
                <= usize::MAX,
        ensures
            b == one_table_ant_fits(self.params, two_conn_constant, ant@),
    {
        assert(self.params.total() == self.nodes_grid.len());
        let nbr_inputs = self.params.nbr_inputs;
        let graph_width = self.params.graph_width;
        let rows = self.params.graph_width + self.params.nbr_outputs;
        let range = self.params.nbr_inputs + self.params.graph_width;
        if rows == 0 {
            return true;
        }
        proof {
            let first = self.nodes_grid@[nbr_inputs as int];
            assert(first.wf() && first.position == nbr_inputs);
        }
        let mut j: usize = 0;
        while j < rows
            invariant
                nbr_inputs == self.params.nbr_inputs,
                graph_width == self.params.graph_width,
                rows == self.params.graph_width + self.params.nbr_outputs,
                range == self.params.nbr_inputs + self.params.graph_width,
                range > 0,
                range * range <= usize::MAX,
                two_conn_constant > 0,
                nbr_inputs + rows <= usize::MAX,
                ant@.len() >= rows,
                j <= rows,
                forall|k: int|
                    0 <= k < j && k < graph_width ==> {
                        let choice = spec_decode_one_table(
                            (#[trigger] ant@[k]) as int,
                            range as int,
                            two_conn_constant as int,
                        );
                        &&& choice.function_id < NBR_FUNCTIONS
                        &&& choice.connection1 < nbr_inputs + k
                        &&& choice.connection2 matches Some(c) ==> c < nbr_inputs + k
                    },
                forall|k: int| graph_width <= k < j ==> (#[trigger] ant@[k]) < range,
            decreases rows - j,
        {
            if j < graph_width {
                let choice = decode_one_table(ant[j], range, two_conn_constant);
                if choice.function_id >= NBR_FUNCTIONS || choice.connection1 >= nbr_inputs + j {
                    return false;
                }
                match choice.connection2 {
                    Some(c) => {
                        if c >= nbr_inputs + j {
                            return false;
                        }
                    },
                    None => {},
                }
            } else {
                if ant[j] >= range {
                    return false;
                }
            }
            j += 1;
        }
        true
    }

    /// Writes the choices of an ant of the one-table layout into the nodes:
    /// row `j` of the table belongs to the node `j` places behind the inputs.
    /// The graph is well-formed afterwards if the ant fits.
    pub fn set_one_table_ant(&mut self, ant: &Vec<usize>, two_conn_constant: usize)
        requires
            old(self).wf(),
            ant@.len() >= old(self).params.graph_width + old(self).params.nbr_outputs,
            two_conn_constant > 0,
            (old(self).params.nbr_inputs + old(self).params.graph_width) * (old(self).params.nbr_inputs
                + old(self).params.graph_width) <= usize::MAX,
        ensures
            final(self).same_frame(old(self)),
            final(self).nodes_grid@.len() == old(self).nodes_grid@.len(),
            forall|v: int|
                0 <= v < old(self).params.nbr_inputs && v < old(self).nodes_grid@.len()
                    ==> final(self).nodes_grid@[v] == old(self).nodes_grid@[v],
            forall|j: int|
                0 <= j < old(self).params.graph_width + old(self).params.nbr_outputs ==> (
                #[trigger] final(self).nodes_grid@[old(self).params.nbr_inputs + j]) == with_one_table_choice(
                    old(self).params,
                    two_conn_constant,
                    old(self).nodes_grid@[old(self).params.nbr_inputs + j],
                    j,
                    ant@,
                ),
            one_table_ant_fits(old(self).params, two_conn_constant, ant@) ==> final(self).wf(),
    {
        assert(self.params.total() == self.nodes_grid.len());
        let nbr_inputs = self.params.nbr_inputs;
        let graph_width = self.params.graph_width;
        let rows = self.params.graph_width + self.params.nbr_outputs;
        let range = self.params.nbr_inputs + self.params.graph_width;
        let ghost old_nodes = self.nodes_grid@;
        let ghost params = self.params;
        let mut j: usize = 0;
        while j < rows
            invariant
                self.same_frame(old(self)),
                self.params == params,
                params == old(self).params,
                old_nodes == old(self).nodes_grid@,
                nodes_wf(params, old_nodes),
                nbr_inputs == params.nbr_inputs,
                graph_width == params.graph_width,
                rows == params.graph_width + params.nbr_outputs,
                range == params.nbr_inputs + params.graph_width,
                range * range <= usize::MAX,
                two_conn_constant > 0,
                nbr_inputs + rows == self.nodes_grid.len(),
                self.nodes_grid@.len() == old_nodes.len(),
                ant@.len() >= rows,
                j <= rows,
                forall|v: int|
                    0 <= v < old_nodes.len() && !(nbr_inputs <= v < nbr_inputs + j) ==> self.nodes_grid@[v]
                        == old_nodes[v],
                forall|k: int|
                    0 <= k < j ==> (#[trigger] self.nodes_grid@[nbr_inputs + k]) == with_one_table_choice(
                        params,
                        two_conn_constant,
                        old_nodes[nbr_inputs + k],
                        k,
                        ant@,
                    ),
            decreases rows - j,
        {
            let mut node = self.nodes_grid[nbr_inputs + j];
            proof {
                let first = old_nodes[nbr_inputs as int];
                assert(first.wf() && first.position == nbr_inputs);
            }
            if j < graph_width {
                let choice = decode_one_table(ant[j], range, two_conn_constant);
                node.function_id = choice.function_id;
                node.connection1 = choice.connection1;
                match choice.connection2 {
                    Some(c) => {
                        node.connection2 = c;
                    },
                    None => {},
                }
            } else {
                node.connection1 = ant[j];
            }
            self.nodes_grid[nbr_inputs + j] = node;
            j += 1;
        }
        proof {
            if one_table_ant_fits(params, two_conn_constant, ant@) {
                assert forall|v: int| 0 <= v < self.nodes_grid@.len() implies {
                    let node = #[trigger] self.nodes_grid@[v];
                    &&& node.wf()
                    &&& node.position == v
                    &&& node.nbr_inputs == params.nbr_inputs
                    &&& node.graph_width == params.graph_width
                    &&& node.node_type == role_at(v, params.nbr_inputs as int, params.graph_width as int)
                } by {
                    assert(old_nodes[v].wf() && old_nodes[v].position == v);
                    if v >= nbr_inputs {
                        let k = v - nbr_inputs;
                        assert(self.nodes_grid@[nbr_inputs + k] == with_one_table_choice(
                            params,
                            two_conn_constant,
                            old_nodes[nbr_inputs + k],
                            k,
                            ant@,
                        ));
                        if k < graph_width {
                            let choice = spec_decode_one_table(ant@[k] as int, range as int, two_conn_constant as int);
                            assert(choice.function_id < NBR_FUNCTIONS);
                        } else {
                            assert(ant@[k] < range);
                        }
                    }
                }
            }
        }
    }
}

} // verus!
