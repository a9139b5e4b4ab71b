//! The grid of the boolean array encodings: construction, active nodes,
//! evaluation and mutation, shared by the graphs that hold such a grid.

use vstd::prelude::*;
use crate::global_params::CgpParameters;
use crate::reorder::node_reorder::NodeReorder;
use crate::utils::evaluation::{evaluate_outputs, output_values};
use crate::utils::fitness_metrics::{count_matches, rows};
use crate::utils::graph::{
    array_layout, ascending, collect_marked, contains, first_listed, genes, is_active,
    is_evaluation_order, is_first_listed, lemma_array_layout,
    lemma_ascending_active_is_evaluation_order, lemma_relabel_keeps_value, lists_active,
    mark_active, node_value, output_positions, relabels_active, role_at, value_at, GraphNode,
};
use crate::utils::node_type::NodeType;
use crate::utils::random::{draw_mutation, random_below, MUTATION_DRAWS};

verus! {

/// The grid holds inputs, then computational nodes, then outputs, each node at
/// its position and wired as its role asks.
pub open spec fn nodes_wf(params: CgpParameters, nodes: Seq<NodeReorder>) -> bool {
    &&& nodes.len() == params.total()
    &&& forall|v: int|
        0 <= v < nodes.len() ==> {
            let node = #[trigger] nodes[v];
            &&& node.wf()
            &&& node.position == v
            &&& node.nbr_inputs == params.nbr_inputs
            &&& node.graph_width == params.graph_width
            &&& node.node_type == role_at(v, params.nbr_inputs as int, params.graph_width as int)
        }
}

/// The listed outputs are the positions behind the computational nodes.
pub open spec fn outputs_wf(params: CgpParameters, outputs: Seq<usize>) -> bool {
    outputs == output_positions(
        params.nbr_inputs as int,
        params.graph_width as int,
        params.nbr_outputs as int,
    )
}

/// The list is ascending and holds exactly the positions that influence an
/// output, so that it is an order in which they can be evaluated.
pub open spec fn active_fits(nodes: Seq<NodeReorder>, outputs: Seq<usize>, active: Seq<usize>) -> bool {
    &&& ascending(active)
    &&& lists_active(genes(nodes), outputs, active)
    &&& is_evaluation_order(genes(nodes), active)
}

/// The number of bits in which the outputs of the grid agree with `labels` on
/// `inputs`.
pub open spec fn grid_matches(
    params: CgpParameters,
    nodes: Seq<NodeReorder>,
    inputs: Seq<Seq<bool>>,
    labels: Seq<Seq<bool>>,
) -> nat {
    count_matches(
        output_values(
            genes(nodes),
            params.nbr_inputs + params.graph_width,
            params.nbr_outputs as int,
            inputs,
        ),
        labels,
    )
}

/// The shape that `evaluate` asks of its matrices: a column for every input,
/// a label row of one bit per output for every sample, and label bits that
/// can be counted.
pub open spec fn matrices_fit(params: CgpParameters, inputs: Seq<Vec<bool>>, labels: Seq<Vec<bool>>) -> bool {
    &&& forall|r: int| 0 <= r < inputs.len() ==> (#[trigger] inputs[r])@.len() >= params.nbr_inputs
    &&& labels.len() == inputs.len()
    &&& forall|r: int| 0 <= r < labels.len() ==> (#[trigger] labels[r])@.len() == params.nbr_outputs
    &&& inputs.len() * params.nbr_outputs <= usize::MAX
}

/// A well-formed grid has the array layout.
pub proof fn lemma_grid_layout(params: CgpParameters, nodes: Seq<NodeReorder>)
    requires
        nodes_wf(params, nodes),
    ensures
        array_layout(
            genes(nodes),
            params.nbr_inputs as int,
            params.graph_width as int,
            params.nbr_outputs as int,
        ),
{
    let gs = genes(nodes);
    assert forall|v: int| 0 <= v < gs.len() implies if v < params.nbr_inputs {
        (#[trigger] gs[v]).node_type == NodeType::InputNode
    } else if v < params.nbr_inputs + params.graph_width {
        &&& gs[v].node_type == NodeType::ComputationalNode
        &&& gs[v].connection1 < v
        &&& gs[v].connection2 < v
    } else {
        &&& gs[v].node_type == NodeType::OutputNode
        &&& gs[v].connection1 < params.nbr_inputs + params.graph_width
    } by {
        let node = nodes[v];
        assert(node.wf());
        assert(gs[v] == node.gene());
    }
}

/// A grid that holds the active nodes of another at new places computes at its
/// outputs what the other computes.
pub proof fn lemma_relabel_keeps_matches(
    params: CgpParameters,
    old: Seq<NodeReorder>,
    new: Seq<NodeReorder>,
    outputs: Seq<usize>,
    m: Seq<usize>,
)
    requires
        nodes_wf(params, old),
        outputs_wf(params, outputs),
        params.total() <= usize::MAX,
        relabels_active(genes(old), genes(new), outputs, m),
    ensures
        forall|inputs: Seq<Seq<bool>>, labels: Seq<Seq<bool>>|
            #[trigger] grid_matches(params, new, inputs, labels) == grid_matches(params, old, inputs, labels),
{
    let go = genes(old);
    let gn = genes(new);
    let first = params.nbr_inputs + params.graph_width;
    let count = params.nbr_outputs as int;
    lemma_grid_layout(params, old);
    lemma_array_layout(go, params.nbr_inputs as int, params.graph_width as int, params.nbr_outputs as int);
    assert forall|inputs: Seq<Seq<bool>>| #[trigger]
        output_values(gn, first, count, inputs) == output_values(go, first, count, inputs) by {
        let a = output_values(gn, first, count, inputs);
        let b = output_values(go, first, count, inputs);
        assert forall|r: int| 0 <= r < inputs.len() implies #[trigger] a[r] == b[r] by {
            assert forall|c: int| 0 <= c < count implies a[r][c] == b[r][c] by {
                let o = first + c;
                assert(outputs[c] == o);
                assert(is_active(go, outputs, o));
                lemma_relabel_keeps_value(go, gn, outputs, m, inputs[r], o, go.len());
            }
            assert(a[r] =~= b[r]);
        }
        assert(a =~= b);
    }
    assert forall|inputs: Seq<Seq<bool>>, labels: Seq<Seq<bool>>| #[trigger]
        grid_matches(params, new, inputs, labels) == grid_matches(params, old, inputs, labels) by {
        assert(output_values(gn, first, count, inputs) == output_values(go, first, count, inputs));
    }
}

/// Without computational nodes every output has the value of the input that
/// it is wired to.
pub proof fn lemma_zero_width_outputs_copy_inputs(
    params: CgpParameters,
    nodes: Seq<NodeReorder>,
    row: Seq<bool>,
    output: int,
)
    requires
        nodes_wf(params, nodes),
        params.graph_width == 0,
        params.nbr_inputs <= output < nodes.len(),
    ensures
        nodes[output].connection1 < params.nbr_inputs,
        value_at(genes(nodes), row, output) == row[nodes[output].connection1 as int],
{
    let gs = genes(nodes);
    let node = nodes[output];
    assert(node.wf() && node.position == output);
    assert(gs[output] == node.gene());
    let c = node.connection1 as int;
    assert(nodes[c].wf() && nodes[c].position == c);
    assert(gs[c] == nodes[c].gene());
    let fuel = gs.len();
    assert(fuel >= 2);
    assert(node_value(gs, row, output, fuel) == node_value(gs, row, c, (fuel - 1) as nat));
    assert(node_value(gs, row, c, (fuel - 1) as nat) == row[c]);
}

/// Whether the grid is well-formed.
pub fn check_nodes(params: &CgpParameters, nodes: &Vec<NodeReorder>) -> (b: bool)
    ensures
        b == nodes_wf(*params, nodes@),
{
    assert(nodes@.len() == nodes.len());
    let total = match params.nbr_inputs.checked_add(params.graph_width) {
        Some(range) => match range.checked_add(params.nbr_outputs) {
            Some(total) => total,
            None => {
                return false;
            },
        },
        None => {
            return false;
        },
    };
    if nodes.len() != total {
        return false;
    }
    let mut v: usize = 0;
    while v < total
        invariant
            total == params.total(),
            nodes@.len() == total,
            v <= total,
            forall|u: int|
                0 <= u < v ==> {
                    let node = #[trigger] nodes@[u];
                    &&& node.wf()
                    &&& node.position == u
                    &&& node.nbr_inputs == params.nbr_inputs
                    &&& node.graph_width == params.graph_width
                    &&& node.node_type == role_at(u, params.nbr_inputs as int, params.graph_width as int)
                },
        decreases total - v,
    {
        let node = nodes[v];
        let role_fits = match node.node_type {
            NodeType::InputNode => v < params.nbr_inputs,
            NodeType::ComputationalNode => params.nbr_inputs <= v && v < params.nbr_inputs + params.graph_width,
            NodeType::OutputNode => params.nbr_inputs + params.graph_width <= v,
        };
        if !(node.check_wf() && node.position == v && node.nbr_inputs == params.nbr_inputs && node.graph_width
            == params.graph_width && role_fits) {
            return false;
        }
        v += 1;
    }
    true
}

/// Whether the listed outputs are the positions behind the computational
/// nodes.
pub fn check_outputs(params: &CgpParameters, outputs: &Vec<usize>) -> (b: bool)
    requires
        params.total() <= usize::MAX,
    ensures
        b == (outputs@ == output_positions(
            params.nbr_inputs as int,
            params.graph_width as int,
            params.nbr_outputs as int,
        )),
{
    let ghost expected = output_positions(
        params.nbr_inputs as int,
        params.graph_width as int,
        params.nbr_outputs as int,
    );
    if outputs.len() != params.nbr_outputs {
        return false;
    }
    let first = params.nbr_inputs + params.graph_width;
    let mut k: usize = 0;
    while k < outputs.len()
        invariant
            params.total() <= usize::MAX,
            first == params.nbr_inputs + params.graph_width,
            outputs@.len() == params.nbr_outputs,
            expected == output_positions(
                params.nbr_inputs as int,
                params.graph_width as int,
                params.nbr_outputs as int,
            ),
            k <= outputs@.len(),
            forall|i: int| 0 <= i < k ==> outputs@[i] == first + i,
        decreases outputs@.len() - k,
    {
        if outputs[k] != first + k {
            assert(outputs@[k as int] != expected[k as int]);
            return false;
        }
        k += 1;
    }
    assert(outputs@ =~= expected);
    true
}

/// A grid of random nodes, and the positions of its outputs.
pub fn random_grid(params: &CgpParameters) -> (r: (Vec<NodeReorder>, Vec<usize>))
    requires
        params.wf(),
    ensures
        nodes_wf(*params, r.0@),
        outputs_wf(*params, r.1@),
{
    let nbr_inputs = params.nbr_inputs;
    let graph_width = params.graph_width;
    let total = params.nbr_inputs + params.graph_width + params.nbr_outputs;
    let mut nodes_grid: Vec<NodeReorder> = Vec::with_capacity(total);
    let mut output_node_ids: Vec<usize> = Vec::with_capacity(params.nbr_outputs);
    let mut position: usize = 0;
    while position < total
        invariant
            params.wf(),
            nbr_inputs == params.nbr_inputs,
            graph_width == params.graph_width,
            total == params.total(),
            position <= total,
            nodes_grid@.len() == position,
            forall|v: int|
                0 <= v < position ==> {
                    let node = #[trigger] nodes_grid@[v];
                    &&& node.wf()
                    &&& node.position == v
                    &&& node.nbr_inputs == nbr_inputs
                    &&& node.graph_width == graph_width
                    &&& node.node_type == role_at(v, nbr_inputs as int, graph_width as int)
                },
        decreases total - position,
    {
        let node_type = if position < nbr_inputs {
            NodeType::InputNode
        } else if position < nbr_inputs + graph_width {
            NodeType::ComputationalNode
        } else {
            NodeType::OutputNode
        };
        nodes_grid.push(NodeReorder::new(position, nbr_inputs, graph_width, node_type));
        position += 1;
    }
    let mut k: usize = 0;
    while k < params.nbr_outputs
        invariant
            params.wf(),
            k <= params.nbr_outputs,
            output_node_ids@.len() == k,
            forall|i: int| 0 <= i < k ==> output_node_ids@[i] == params.nbr_inputs + params.graph_width + i,
        decreases params.nbr_outputs - k,
    {
        output_node_ids.push(params.nbr_inputs + params.graph_width + k);
        k += 1;
    }
    assert(output_node_ids@ =~= output_positions(
        params.nbr_inputs as int,
        params.graph_width as int,
        params.nbr_outputs as int,
    ));
    (nodes_grid, output_node_ids)
}

/// The positions that influence an output, in ascending order.
pub fn active_order(params: &CgpParameters, nodes: &Vec<NodeReorder>, outputs: &Vec<usize>) -> (active: Vec<usize>)
    requires
        nodes_wf(*params, nodes@),
        outputs_wf(*params, outputs@),
    ensures
        active_fits(nodes@, outputs@, active@),
{
    proof {
        lemma_grid_layout(*params, nodes@);
        lemma_array_layout(
            genes(nodes@),
            params.nbr_inputs as int,
            params.graph_width as int,
            params.nbr_outputs as int,
        );
    }
    let marked = mark_active(nodes, outputs);
    let active = collect_marked(&marked);
    proof {
        lemma_ascending_active_is_evaluation_order(genes(nodes@), outputs@, active@);
    }
    active
}

/// Evaluates the active nodes on every sample of `inputs` and counts the
/// output bits that agree with `labels`.
pub fn evaluate_grid(
    params: &CgpParameters,
    nodes: &Vec<NodeReorder>,
    outputs: &Vec<usize>,
    active: &Vec<usize>,
    inputs: &Vec<Vec<bool>>,
    labels: &Vec<Vec<bool>>,
) -> (matches: usize)
    requires
        nodes_wf(*params, nodes@),
        outputs_wf(*params, outputs@),
        active_fits(nodes@, outputs@, active@),
        matrices_fit(*params, inputs@, labels@),
    ensures
        matches == grid_matches(*params, nodes@, rows(inputs@), rows(labels@)),
        matches <= inputs@.len() * params.nbr_outputs,
{
    let ghost gs = genes(nodes@);
    assert(params.total() == nodes.len());
    let first_output = params.nbr_inputs + params.graph_width;
    let nbr_outputs = params.nbr_outputs;
    proof {
        lemma_grid_layout(*params, nodes@);
        assert forall|v: int, r: int|
            0 <= v < gs.len() && (#[trigger] gs[v]).node_type == NodeType::InputNode && 0 <= r < rows(
                inputs@,
            ).len() implies v < (#[trigger] rows(inputs@)[r]).len() by {
            assert(inputs@[r]@.len() >= params.nbr_inputs);
        }
        assert forall|v: int|
            0 <= v < gs.len() && (#[trigger] gs[v]).node_type
                == NodeType::ComputationalNode implies gs[v].function_id < 4 by {
            assert(nodes@[v].wf());
        }
        assert forall|o: usize| first_output <= o < first_output + nbr_outputs implies active@.contains(o) by {
            assert(outputs@[o - first_output] == o);
            assert(is_active(gs, outputs@, o as int));
        }
    }
    evaluate_outputs(nodes, active, first_output, nbr_outputs, inputs, labels)
}

/// `new` is the grid `old` after one mutation of the node at `v`, a
/// computational node or an output; every other node is as it was.
pub open spec fn mutated_at(params: CgpParameters, old: Seq<NodeReorder>, new: Seq<NodeReorder>, v: int) -> bool {
    &&& params.nbr_inputs <= v < old.len()
    &&& new.len() == old.len()
    &&& old[v].mutated_to(new[v])
    &&& forall|u: int| 0 <= u < old.len() && u != v ==> new[u] == old[u]
}

/// Each grid of `grids` comes from the grid before it by one mutation, of the
/// node that `draws` names at that place.
pub open spec fn is_mutation_trace(params: CgpParameters, grids: Seq<Seq<NodeReorder>>, draws: Seq<usize>) -> bool {
    &&& grids.len() == draws.len() + 1
    &&& forall|i: int|
        0 <= i < draws.len() ==> mutated_at(params, grids[i], grids[i + 1], (#[trigger] draws[i]) as int)
}

/// What mutation until an active node is hit does, told by the nodes drawn
/// and the grids passed through. The grid `new` comes from `old` by one
/// mutation for every node of `draws`. Only the last of them may stand in
/// `active`: it does, and is named by `hit`. Where `usize::MAX` draws have
/// missed, the last of `draws` is no draw but the first computational node or
/// output of `active`. `hit` is `None`, and nothing is mutated, only where
/// `active` holds no computational node and no output.
pub open spec fn is_mutation_until_active(
    params: CgpParameters,
    old: Seq<NodeReorder>,
    new: Seq<NodeReorder>,
    active: Seq<usize>,
    hit: Option<usize>,
    grids: Seq<Seq<NodeReorder>>,
    draws: Seq<usize>,
) -> bool {
    &&& is_mutation_trace(params, grids, draws)
    &&& grids[0] == old
    &&& grids[draws.len() as int] == new
    &&& forall|i: int| 0 <= i < draws.len() - 1 ==> !active.contains(#[trigger] draws[i])
    &&& draws.len() <= usize::MAX + 1
    &&& match hit {
        Some(v) => {
            &&& draws.len() > 0
            &&& draws[draws.len() - 1] == v
            &&& active.contains(v)
            &&& draws.len() == usize::MAX + 1 ==> is_first_listed(
                active,
                params.nbr_inputs as int,
                old.len() as int,
                v,
            )
        },
        None => draws.len() == 0 && forall|v: usize| params.nbr_inputs <= v < old.len() ==> !active.contains(v),
    }
}

/// What mutation of each node with a chance does: the inputs stay; every
/// computational node and output stays or is mutated once; all stay where the
/// chance is 0, and all are mutated where it is certain.
pub open spec fn is_mutation_of_each(
    params: CgpParameters,
    old: Seq<NodeReorder>,
    new: Seq<NodeReorder>,
    threshold: u32,
) -> bool {
    &&& new.len() == old.len()
    &&& forall|v: int| 0 <= v < params.nbr_inputs && v < old.len() ==> (#[trigger] new[v]) == old[v]
    &&& forall|v: int|
        params.nbr_inputs <= v < old.len() ==> (#[trigger] new[v]) == old[v] || old[v].mutated_to(new[v])
    &&& threshold == 0 ==> new == old
    &&& threshold >= MUTATION_DRAWS ==> forall|v: int|
        params.nbr_inputs <= v < old.len() ==> (#[trigger] old[v]).mutated_to(new[v])
}

/// Applies one mutation to the node at `node_id`.
pub fn mutate_grid_node(params: &CgpParameters, nodes: &mut Vec<NodeReorder>, node_id: usize)
    requires
        nodes_wf(*params, old(nodes)@),
        params.nbr_inputs <= node_id < old(nodes)@.len(),
    ensures
        nodes_wf(*params, final(nodes)@),
        old(nodes)@[node_id as int].mutated_to(final(nodes)@[node_id as int]),
        forall|v: int| 0 <= v < old(nodes)@.len() && v != node_id ==> final(nodes)@[v] == old(nodes)@[v],
        mutated_at(*params, old(nodes)@, final(nodes)@, node_id as int),
{
    let mut node = nodes[node_id];
    assert(node.wf() && node.position == node_id);
    node.mutate();
    nodes[node_id] = node;
}

/// Mutates nodes drawn at random among the computational nodes and outputs
/// until a drawn node stands in `active`, and names that node. Where
/// `usize::MAX` draws have missed, the first computational node or output of
/// `active` is mutated and named. None is named, and nothing is mutated,
/// only where `active` holds no computational node and no output.
pub fn mutate_until_active(params: &CgpParameters, nodes: &mut Vec<NodeReorder>, active: &Vec<usize>) -> (hit:
    Option<usize>)
    requires
        nodes_wf(*params, old(nodes)@),
    ensures
        nodes_wf(*params, final(nodes)@),
        forall|v: int|
            0 <= v < params.nbr_inputs && v < old(nodes)@.len() ==> final(nodes)@[v] == old(nodes)@[v],
        hit matches Some(v) ==> params.nbr_inputs <= v < old(nodes)@.len() && active@.contains(v),
        hit is Some <==> exists|v: usize| params.nbr_inputs <= v < old(nodes)@.len() && active@.contains(v),
        hit is None ==> final(nodes)@ == old(nodes)@,
        exists|grids: Seq<Seq<NodeReorder>>, draws: Seq<usize>| #[trigger]
            is_mutation_until_active(*params, old(nodes)@, final(nodes)@, active@, hit, grids, draws),
{
    let start_id = params.nbr_inputs;
    let end_id = nodes.len();
    let ghost mut grids: Seq<Seq<NodeReorder>> = seq![nodes@];
    let ghost mut drawn: Seq<usize> = Seq::empty();
    let first = match first_listed(active, start_id, end_id) {
        Some(first) => first,
        None => {
            assert(is_mutation_until_active(*params, old(nodes)@, nodes@, active@, None, grids, drawn));
            return None;
        },
    };
    let mut draws: usize = 0;
    while draws < usize::MAX
        invariant
            nodes_wf(*params, nodes@),
            start_id == params.nbr_inputs,
            end_id == nodes@.len(),
            end_id == old(nodes)@.len(),
            start_id <= first < end_id,
            active@.contains(first),
            is_first_listed(active@, start_id as int, end_id as int, first),
            forall|v: int| 0 <= v < params.nbr_inputs && v < end_id ==> nodes@[v] == old(nodes)@[v],
            drawn.len() == draws,
            is_mutation_trace(*params, grids, drawn),
            grids[0] == old(nodes)@,
            grids[drawn.len() as int] == nodes@,
            forall|i: int| 0 <= i < drawn.len() ==> !active@.contains(#[trigger] drawn[i]),
        decreases usize::MAX - draws,
    {
        draws += 1;
        let random_node_id = start_id + random_below(end_id - start_id);
        let ghost grids_before = grids;
        let ghost drawn_before = drawn;
        mutate_grid_node(params, nodes, random_node_id);
        proof {
            grids = grids.push(nodes@);
            drawn = drawn.push(random_node_id);
            assert forall|i: int| 0 <= i < drawn.len() implies mutated_at(
                *params,
                grids[i],
                grids[i + 1],
                (#[trigger] drawn[i]) as int,
            ) by {
                if i < drawn_before.len() {
                    assert(mutated_at(*params, grids_before[i], grids_before[i + 1], drawn_before[i] as int));
                }
            }
        }
        if contains(active, random_node_id) {
            proof {
                assert forall|i: int| 0 <= i < drawn.len() - 1 implies !active@.contains(#[trigger] drawn[i]) by {
                    assert(drawn[i] == drawn_before[i]);
                }
                assert(is_mutation_until_active(
                    *params,
                    old(nodes)@,
                    nodes@,
                    active@,
                    Some(random_node_id),
                    grids,
                    drawn,
                ));
            }
            return Some(random_node_id);
        }
        proof {
            assert forall|i: int| 0 <= i < drawn.len() implies !active@.contains(#[trigger] drawn[i]) by {
                if i < drawn_before.len() {
                    assert(drawn[i] == drawn_before[i]);
                }
            }
        }
    }
    let ghost grids_before = grids;
    let ghost drawn_before = drawn;
    mutate_grid_node(params, nodes, first);
    proof {
        grids = grids.push(nodes@);
        drawn = drawn.push(first);
        assert forall|i: int| 0 <= i < drawn.len() implies mutated_at(
            *params,
            grids[i],
            grids[i + 1],
            (#[trigger] drawn[i]) as int,
        ) by {
            if i < drawn_before.len() {
                assert(mutated_at(*params, grids_before[i], grids_before[i + 1], drawn_before[i] as int));
            }
        }
        assert forall|i: int| 0 <= i < drawn.len() - 1 implies !active@.contains(#[trigger] drawn[i]) by {
            assert(drawn[i] == drawn_before[i]);
        }
        assert(is_mutation_until_active(*params, old(nodes)@, nodes@, active@, Some(first), grids, drawn));
    }
    Some(first)
}

/// Mutates each computational node and output with a chance of `threshold` in
/// `MUTATION_DRAWS`.
pub fn mutate_each(params: &CgpParameters, nodes: &mut Vec<NodeReorder>, threshold: u32)
    requires
        nodes_wf(*params, old(nodes)@),
    ensures
        nodes_wf(*params, final(nodes)@),
        forall|v: int|
            0 <= v < params.nbr_inputs && v < old(nodes)@.len() ==> final(nodes)@[v] == old(nodes)@[v],
        threshold == 0 ==> final(nodes)@ == old(nodes)@,
        threshold >= MUTATION_DRAWS ==> forall|v: int|
            params.nbr_inputs <= v < old(nodes)@.len() ==> (#[trigger] old(nodes)@[v]).mutated_to(final(nodes)@[v]),
        is_mutation_of_each(*params, old(nodes)@, final(nodes)@, threshold),
{
    let start_id = params.nbr_inputs;
    let end_id = nodes.len();
    assert(params.total() == nodes.len());
    let mut node_id = start_id;
    while node_id < end_id
        invariant
            nodes_wf(*params, nodes@),
            start_id == params.nbr_inputs,
            end_id == nodes@.len(),
            end_id == old(nodes)@.len(),
            start_id <= node_id <= end_id,
            forall|v: int| 0 <= v < start_id ==> nodes@[v] == old(nodes)@[v],
            forall|v: int| node_id <= v < end_id ==> nodes@[v] == old(nodes)@[v],
            threshold == 0 ==> nodes@ =~= old(nodes)@,
            threshold >= MUTATION_DRAWS ==> forall|v: int|
                start_id <= v < node_id ==> (#[trigger] old(nodes)@[v]).mutated_to(nodes@[v]),
            forall|v: int|
                start_id <= v < node_id ==> (#[trigger] nodes@[v]) == old(nodes)@[v] || old(nodes)@[v].mutated_to(
                    nodes@[v],
                ),
        decreases end_id - node_id,
    {
        if draw_mutation(threshold) {
            mutate_grid_node(params, nodes, node_id);
        }
        node_id += 1;
    }
}

} // verus!
