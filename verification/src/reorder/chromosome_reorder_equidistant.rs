//! A boolean graph whose active computational nodes are spread over the
//! computational region before every mutation, the inactive ones filling the
//! places between them.

use vstd::prelude::*;
use crate::global_params::CgpParameters;
use crate::reorder::node_reorder::NodeReorder;
use crate::utils::boolean_grid::{
    active_fits, active_order, check_nodes, check_outputs, evaluate_grid, grid_matches,
    is_mutation_of_each, is_mutation_until_active, lemma_relabel_keeps_matches, matrices_fit,
    mutate_each, mutate_until_active, nodes_wf, outputs_wf, random_grid,
};
use crate::utils::cycle_checker::has_edge;
use crate::utils::fitness_metrics::rows;
use crate::utils::graph::{
    ascending, dep_graph, gene_deps, genes, is_active, lemma_active_closed, relabel,
    relabels_active, role_at, GraphNode,
};
use crate::utils::node_type::NodeType;
use crate::utils::vect_difference::{lemma_difference_len, vect_difference};

verus! {

/// A graph of the boolean array encoding: the nodes by position, the
/// positions of the outputs, and the cached positions of the active nodes.
pub struct Chromosome {
    pub params: CgpParameters,
    pub nodes_grid: Vec<NodeReorder>,
    pub output_node_ids: Vec<usize>,
    pub active_nodes: Option<Vec<usize>>,
}

/// How many entries of `s` lie from `lo` up to, not including, `hi`.
pub open spec fn count_within(s: Seq<usize>, lo: int, hi: int) -> nat
    decreases s.len(),
{
    if s.len() == 0 {
        0
    } else {
        count_within(s.drop_last(), lo, hi) + if lo <= s.last() < hi {
            1nat
        } else {
            0nat
        }
    }
}

/// The node is well-formed and stands at position `p` of a graph of these
/// parameters.
pub open spec fn node_ok(params: CgpParameters, node: NodeReorder, p: int) -> bool {
    &&& node.wf()
    &&& node.position == p
    &&& node.nbr_inputs == params.nbr_inputs
    &&& node.graph_width == params.graph_width
    &&& node.node_type == role_at(p, params.nbr_inputs as int, params.graph_width as int)
}

/// `list` holds, in ascending order, the computational nodes that influence an
/// output.
pub open spec fn lists_active_computational(
    params: CgpParameters,
    nodes: Seq<NodeReorder>,
    outputs: Seq<usize>,
    list: Seq<usize>,
) -> bool {
    &&& ascending(list)
    &&& forall|x: usize|
        list.contains(x) <==> (params.nbr_inputs <= x < params.nbr_inputs + params.graph_width && is_active(
            genes(nodes),
            outputs,
            x as int,
        ))
}

/// `new_pos` names a place among the computational nodes for each of `count`
/// nodes, in ascending order.
pub open spec fn spacing_fits(params: CgpParameters, count: nat, new_pos: Seq<usize>) -> bool {
    &&& new_pos.len() == count
    &&& ascending(new_pos)
    &&& forall|i: int|
        0 <= i < new_pos.len() ==> params.nbr_inputs <= (#[trigger] new_pos[i]) < params.nbr_inputs
            + params.graph_width
}

/// The map `m` leaves position `v` where it is.
pub open spec fn stays(m: Seq<usize>, v: int) -> bool {
    m[v] == v
}

/// The old grid, the list `a` of its active computational nodes, the places
/// `l` they move to and the map `m` from old places to new.
pub open spec fn swap_plan(
    params: CgpParameters,
    old: Seq<NodeReorder>,
    outputs: Seq<usize>,
    a: Seq<usize>,
    l: Seq<usize>,
    m: Seq<usize>,
) -> bool {
    &&& nodes_wf(params, old)
    &&& outputs_wf(params, outputs)
    &&& params.total() <= usize::MAX
    &&& lists_active_computational(params, old, outputs, a)
    &&& spacing_fits(params, a.len(), l)
    &&& m.len() == old.len()
    &&& forall|i: int| 0 <= i < a.len() ==> m[(#[trigger] a[i]) as int] == l[i]
    &&& forall|v: int| 0 <= v < old.len() && !a.contains(v as usize) ==> #[trigger] stays(m, v)
}

/// The new grid holds what the plan asks: the active computational nodes at
/// their new places and the outputs, both with their connections sent through
/// `m`; well-formed nodes at the other computational places; the inputs.
pub open spec fn swapped(
    params: CgpParameters,
    old: Seq<NodeReorder>,
    new: Seq<NodeReorder>,
    a: Seq<usize>,
    l: Seq<usize>,
    m: Seq<usize>,
) -> bool {
    &&& new.len() == old.len()
    &&& forall|i: int|
        0 <= i < a.len() ==> new[(#[trigger] l[i]) as int] == (NodeReorder {
            position: l[i],
            connection1: relabel(m, old[a[i] as int].connection1),
            connection2: relabel(m, old[a[i] as int].connection2),
            ..old[a[i] as int]
        })
    &&& forall|p: int|
        params.nbr_inputs <= p < params.nbr_inputs + params.graph_width && !l.contains(p as usize) ==> node_ok(
            params,
            #[trigger] new[p],
            p,
        )
    &&& forall|p: int| 0 <= p < params.nbr_inputs ==> (#[trigger] new[p]) == old[p]
    &&& forall|p: int|
        params.nbr_inputs + params.graph_width <= p < old.len() ==> (#[trigger] new[p]) == (NodeReorder {
            connection1: relabel(m, old[p].connection1),
            connection2: relabel(m, old[p].connection2),
            ..old[p]
        })
}

/// `rest` holds, in ascending order, the computational nodes that `listed`
/// does not hold.
pub open spec fn is_complement(params: CgpParameters, listed: Seq<usize>, rest: Seq<usize>) -> bool {
    &&& ascending(rest)
    &&& forall|x: usize|
        rest.contains(x) <==> (params.nbr_inputs <= x < params.nbr_inputs + params.graph_width
            && !listed.contains(x))
}

/// `new` is the inactive node `old` moved to place `p`: a connection that
/// points before `p` is kept, another is redrawn before `p`.
pub open spec fn moved_inactive(old: NodeReorder, new: NodeReorder, p: usize) -> bool {
    &&& new == (NodeReorder { position: p, connection1: new.connection1, connection2: new.connection2, ..old })
    &&& new.connection1 < p
    &&& new.connection2 < p
    &&& old.connection1 < p ==> new.connection1 == old.connection1
    &&& old.connection2 < p ==> new.connection2 == old.connection2
}

/// The new grid holds the nodes of the old one spread over the places `l`:
/// the `i`-th active computational node at `l[i]`, the `i`-th inactive one at
/// the `i`-th place that `l` leaves over.
pub open spec fn is_spread(
    params: CgpParameters,
    old: Seq<NodeReorder>,
    outputs: Seq<usize>,
    new: Seq<NodeReorder>,
    l: Seq<usize>,
) -> bool {
    exists|a: Seq<usize>, m: Seq<usize>, old_inactive: Seq<usize>, new_inactive: Seq<usize>|
        {
            &&& #[trigger] swap_plan(params, old, outputs, a, l, m)
            &&& swapped(params, old, new, a, l, m)
            &&& #[trigger] is_complement(params, a, old_inactive)
            &&& #[trigger] is_complement(params, l, new_inactive)
            &&& old_inactive.len() == new_inactive.len()
            &&& forall|i: int|
                0 <= i < old_inactive.len() ==> moved_inactive(
                    old[old_inactive[i] as int],
                    new[(#[trigger] new_inactive[i]) as int],
                    new_inactive[i],
                )
        }
}

/// Where an active node reads `c`, an input keeps its place and a
/// computational node is listed and gets a place among the computational
/// nodes: an earlier one than the reader's, where the reader is one of them.
pub proof fn lemma_read_goes_before(
    params: CgpParameters,
    old: Seq<NodeReorder>,
    outputs: Seq<usize>,
    a: Seq<usize>,
    l: Seq<usize>,
    m: Seq<usize>,
    v: int,
    c: usize,
)
    requires
        swap_plan(params, old, outputs, a, l, m),
        0 <= v < old.len(),
        is_active(genes(old), outputs, v),
        old[v].node_type != NodeType::InputNode,
        c == old[v].connection1 || (old[v].node_type == NodeType::ComputationalNode && c
            == old[v].connection2),
    ensures
        c < params.nbr_inputs + params.graph_width,
        c < params.nbr_inputs ==> relabel(m, c) == c,
        relabel(m, c) < params.nbr_inputs + params.graph_width,
        params.nbr_inputs <= v < params.nbr_inputs + params.graph_width ==> relabel(m, c) < m[v],
        params.nbr_inputs <= v < params.nbr_inputs + params.graph_width ==> params.nbr_inputs <= m[v]
            < params.nbr_inputs + params.graph_width,
{
    let nbr_inputs = params.nbr_inputs as int;
    let end = params.nbr_inputs + params.graph_width;
    let go = genes(old);
    let g = dep_graph(go);
    let node = old[v];
    assert(node.wf() && node.position == v);
    assert(go[v] == node.gene());
    assert(g[v] == gene_deps(go[v]));
    let k: int = if c == node.connection1 { 0 } else { 1 };
    assert(g[v][k] == c);
    assert(has_edge(g, v, c as int));
    lemma_active_closed(go, outputs, v, c as int);
    if nbr_inputs <= v < end {
        assert(a.contains(v as usize));
        let i = choose|i: int| 0 <= i < a.len() && a[i] == v as usize;
        assert(m[a[i] as int] == l[i]);
        assert(nbr_inputs <= l[i] < end);
        if c >= nbr_inputs {
            assert(a.contains(c));
            let j = choose|j: int| 0 <= j < a.len() && a[j] == c;
            assert(m[a[j] as int] == l[j]);
            if j >= i {
                if j > i {
                    assert(a[i] < a[j]);
                }
                assert(false);
            }
            assert(l[j] < l[i]);
        } else {
            assert(!a.contains(c));
            assert(stays(m, c as int));
        }
    } else {
        if c >= nbr_inputs {
            assert(a.contains(c));
            let j = choose|j: int| 0 <= j < a.len() && a[j] == c;
            assert(m[a[j] as int] == l[j]);
            assert(nbr_inputs <= l[j] < end);
        } else {
            assert(!a.contains(c));
            assert(stays(m, c as int));
        }
    }
}

/// What the swap leaves behind is a well-formed grid.
pub proof fn lemma_swap_wf(
    params: CgpParameters,
    old: Seq<NodeReorder>,
    new: Seq<NodeReorder>,
    outputs: Seq<usize>,
    a: Seq<usize>,
    l: Seq<usize>,
    m: Seq<usize>,
)
    requires
        swap_plan(params, old, outputs, a, l, m),
        swapped(params, old, new, a, l, m),
    ensures
        nodes_wf(params, new),
{
    let nbr_inputs = params.nbr_inputs as int;
    let end = params.nbr_inputs + params.graph_width;
    let go = genes(old);
    assert forall|v: int| 0 <= v < new.len() implies node_ok(params, #[trigger] new[v], v) by {
        if v < nbr_inputs {
            assert(old[v].wf() && old[v].position == v);
        } else if v < end {
            if l.contains(v as usize) {
                let i = choose|i: int| 0 <= i < l.len() && l[i] == v as usize;
                let u = a[i] as int;
                assert(a.contains(a[i]));
                assert(new[l[i] as int] == (NodeReorder {
                    position: l[i],
                    connection1: relabel(m, old[u].connection1),
                    connection2: relabel(m, old[u].connection2),
                    ..old[u]
                }));
                assert(old[u].wf() && old[u].position == u);
                assert(m[a[i] as int] == l[i]);
                lemma_read_goes_before(params, old, outputs, a, l, m, u, old[u].connection1);
                lemma_read_goes_before(params, old, outputs, a, l, m, u, old[u].connection2);
            }
        } else {
            assert(old[v].wf() && old[v].position == v);
            assert(outputs[v - end] == v);
            assert(is_active(go, outputs, v));
            lemma_read_goes_before(params, old, outputs, a, l, m, v, old[v].connection1);
        }
    }
}

/// What the swap leaves behind holds the active nodes of the old grid at their
/// new places.
pub proof fn lemma_swap_relabels(
    params: CgpParameters,
    old: Seq<NodeReorder>,
    new: Seq<NodeReorder>,
    outputs: Seq<usize>,
    a: Seq<usize>,
    l: Seq<usize>,
    m: Seq<usize>,
)
    requires
        swap_plan(params, old, outputs, a, l, m),
        swapped(params, old, new, a, l, m),
    ensures
        relabels_active(genes(old), genes(new), outputs, m),
{
    let nbr_inputs = params.nbr_inputs as int;
    let end = params.nbr_inputs + params.graph_width;
    let go = genes(old);
    let gn = genes(new);
    assert forall|v: int| 0 <= v < go.len() && is_active(go, outputs, v) implies {
        &&& (#[trigger] m[v]) < go.len()
        &&& gn[m[v] as int].node_type == go[v].node_type
        &&& gn[m[v] as int].function_id == go[v].function_id
        &&& gn[m[v] as int].binary == go[v].binary
        &&& gene_deps(gn[m[v] as int]) == gene_deps(go[v]).map_values(|c: usize| relabel(m, c))
        &&& go[v].node_type != NodeType::ComputationalNode ==> m[v] == v
    } by {
        assert(old[v].wf() && old[v].position == v);
        assert(go[v] == old[v].gene());
        if nbr_inputs <= v < end {
            assert(a.contains(v as usize));
            let i = choose|i: int| 0 <= i < a.len() && a[i] == v as usize;
            assert(m[a[i] as int] == l[i]);
            assert(nbr_inputs <= l[i] < end);
            assert(new[l[i] as int] == (NodeReorder {
                position: l[i],
                connection1: relabel(m, old[v].connection1),
                connection2: relabel(m, old[v].connection2),
                ..old[v]
            }));
        } else {
            assert(!a.contains(v as usize));
            assert(stays(m, v));
        }
        assert(gn[m[v] as int] == new[m[v] as int].gene());
        assert(gene_deps(gn[m[v] as int]) =~= gene_deps(go[v]).map_values(|c: usize| relabel(m, c)));
    }
}

/// The grid `new` is what a reordering with the places `l` makes of `old`:
/// the nodes spread over the places, or, where no computational node is
/// active, the grid as it was.
pub open spec fn is_spread_or_kept(
    params: CgpParameters,
    old: Seq<NodeReorder>,
    outputs: Seq<usize>,
    new: Seq<NodeReorder>,
    l: Seq<usize>,
) -> bool {
    if l.len() > 0 {
        is_spread(params, old, outputs, new, l)
    } else {
        new == old
    }
}

/// What a mutation until an active node is hit does to a graph that is
/// reordered before: the first grid of `grids` is `old` reordered with the
/// places `l`, `active` lists the active nodes of that grid, and `new` comes
/// from it by the mutations that `draws` and `grids` tell.
pub open spec fn is_spread_then_mutation_until_active(
    params: CgpParameters,
    old: Seq<NodeReorder>,
    outputs: Seq<usize>,
    new: Seq<NodeReorder>,
    l: Seq<usize>,
    active: Seq<usize>,
    hit: Option<usize>,
    grids: Seq<Seq<NodeReorder>>,
    draws: Seq<usize>,
) -> bool {
    &&& grids.len() > 0
    &&& is_spread_or_kept(params, old, outputs, grids[0], l)
    &&& nodes_wf(params, grids[0])
    &&& active_fits(grids[0], outputs, active)
    &&& is_mutation_until_active(params, grids[0], new, active, hit, grids, draws)
}

/// What a mutation of each node with a chance does to a graph that is
/// reordered before: `reordered` is `old` reordered with the places `l`,
/// `active` lists its active nodes, and `new` comes from `reordered` by the
/// mutations.
pub open spec fn is_spread_then_mutation_of_each(
    params: CgpParameters,
    old: Seq<NodeReorder>,
    outputs: Seq<usize>,
    new: Seq<NodeReorder>,
    l: Seq<usize>,
    active: Seq<usize>,
    threshold: u32,
    reordered: Seq<NodeReorder>,
) -> bool {
    &&& is_spread_or_kept(params, old, outputs, reordered, l)
    &&& nodes_wf(params, reordered)
    &&& active_fits(reordered, outputs, active)
    &&& is_mutation_of_each(params, reordered, new, threshold)
}

impl Clone for Chromosome {
    fn clone(&self) -> (r: Self)
        ensures
            r.same_as(self),
    {
        let nodes_grid = self.nodes_grid.clone();
        let output_node_ids = self.output_node_ids.clone();
        let active_nodes = match &self.active_nodes {
            Some(active) => {
                let copy = active.clone();
                assert(copy@ =~= active@);
                Some(copy)
            },
            None => None,
        };
        assert(nodes_grid@ =~= self.nodes_grid@);
        assert(output_node_ids@ =~= self.output_node_ids@);
        Self { params: self.params, nodes_grid, output_node_ids, active_nodes }
    }
}

impl Chromosome {
    /// The two graphs hold the same parameters, nodes, outputs and cache.
    pub open spec fn same_as(&self, other: &Self) -> bool {
        &&& self.params == other.params
        &&& self.nodes_grid@ == other.nodes_grid@
        &&& self.output_node_ids@ == other.output_node_ids@
        &&& self.active_nodes is Some == other.active_nodes is Some
        &&& self.active_nodes is Some ==> self.active_nodes->0@ == other.active_nodes->0@
    }

    /// The grid holds inputs, then computational nodes, then outputs, each node
    /// at its position and wired as its role asks.
    pub open spec fn wf(&self) -> bool {
        &&& nodes_wf(self.params, self.nodes_grid@)
        &&& outputs_wf(self.params, self.output_node_ids@)
    }

    /// The cached list of active nodes is there and fits the grid: ascending,
    /// holding exactly the positions that influence an output.
    pub open spec fn active_is_current(&self) -> bool {
        &&& self.active_nodes matches Some(active)
        &&& active_fits(self.nodes_grid@, self.output_node_ids@, active@)
    }

    /// The number of cached active nodes that are computational nodes.
    pub open spec fn nbr_active_computational(&self) -> nat {
        count_within(
            self.active_nodes->0@,
            self.params.nbr_inputs as int,
            self.params.nbr_inputs + self.params.graph_width,
        )
    }

    /// The number of bits in which the outputs agree with `labels` on `inputs`.
    pub open spec fn spec_evaluate(&self, inputs: Seq<Seq<bool>>, labels: Seq<Seq<bool>>) -> nat {
        grid_matches(self.params, self.nodes_grid@, inputs, labels)
    }

    /// Whether the graph is well-formed.
    pub fn check_wf(&self) -> (b: bool)
        ensures
            b == self.wf(),
    {
        if !check_nodes(&self.params, &self.nodes_grid) {
            return false;
        }
        assert(self.params.total() == self.nodes_grid.len());
        check_outputs(&self.params, &self.output_node_ids)
    }

    /// A graph of random nodes.
    pub fn new(params: CgpParameters) -> (r: Self)
        requires
            params.wf(),
        ensures
            r.wf(),
            r.params == params,
            r.active_nodes is None,
    {
        let (nodes_grid, output_node_ids) = random_grid(&params);
        Self { params, nodes_grid, output_node_ids, active_nodes: None }
    }

    /// Evaluates the graph on every sample of `inputs` and counts the output
    /// bits that agree with `labels`.
    pub fn evaluate(&mut self, inputs: &Vec<Vec<bool>>, labels: &Vec<Vec<bool>>) -> (matches: usize)
        requires
            old(self).wf(),
            matrices_fit(old(self).params, inputs@, labels@),
        ensures
            final(self).wf(),
            final(self).params == old(self).params,
            final(self).nodes_grid@ == old(self).nodes_grid@,
            final(self).output_node_ids@ == old(self).output_node_ids@,
            final(self).active_is_current(),
            matches == old(self).spec_evaluate(rows(inputs@), rows(labels@)),
            matches <= inputs@.len() * old(self).params.nbr_outputs,
    {
        self.get_active_nodes_id();
        match &self.active_nodes {
            Some(active) => evaluate_grid(
                &self.params,
                &self.nodes_grid,
                &self.output_node_ids,
                active,
                inputs,
                labels,
            ),
            None => 0,
        }
    }

    /// Finds the nodes that influence an output and caches their positions in
    /// ascending order, which is an order in which they can be evaluated.
    pub fn get_active_nodes_id(&mut self)
        requires
            old(self).wf(),
        ensures
            final(self).wf(),
            final(self).params == old(self).params,
            final(self).nodes_grid@ == old(self).nodes_grid@,
            final(self).output_node_ids@ == old(self).output_node_ids@,
            final(self).active_is_current(),
    {
        let active = active_order(&self.params, &self.nodes_grid, &self.output_node_ids);
        self.active_nodes = Some(active);
    }

    /// The cached active nodes without inputs and outputs: the computational
    /// nodes that the next reordering spreads out.
    pub fn active_computational_nodes(&self) -> (r: Vec<usize>)
        requires
            self.active_nodes is Some,
            self.params.nbr_inputs + self.params.graph_width <= usize::MAX,
        ensures
            r@.len() == self.nbr_active_computational(),
            forall|x: usize|
                r@.contains(x) <==> (self.active_nodes->0@.contains(x) && self.params.nbr_inputs <= x
                    < self.params.nbr_inputs + self.params.graph_width),
            ascending(self.active_nodes->0@) ==> ascending(r@),
    {
        let lo = self.params.nbr_inputs;
        let hi = self.params.nbr_inputs + self.params.graph_width;
        let mut r: Vec<usize> = Vec::new();
        match &self.active_nodes {
            Some(active) => {
                let mut i: usize = 0;
                while i < active.len()
                    invariant
                        i <= active@.len(),
                        r@.len() == count_within(active@.subrange(0, i as int), lo as int, hi as int),
                        forall|x: usize| r@.contains(x) ==> active@.contains(x) && lo <= x < hi,
                        forall|k: int|
                            0 <= k < i && lo <= active@[k] < hi ==> r@.contains(#[trigger] active@[k]),
                        forall|k: int|
                            0 <= k < r@.len() ==> exists|j: int| 0 <= j < i && active@[j] == #[trigger] r@[k],
                        ascending(active@) ==> ascending(r@),
                    decreases active@.len() - i,
                {
                    let x = active[i];
                    let ghost before = r@;
                    assert(active@.subrange(0, i + 1).drop_last() =~= active@.subrange(0, i as int));
                    if lo <= x && x < hi {
                        r.push(x);
                        proof {
                            assert forall|y: usize| r@.contains(y) implies active@.contains(y) && lo <= y
                                < hi by {
                                let k = choose|k: int| 0 <= k < r@.len() && r@[k] == y;
                                if k < before.len() {
                                    assert(before.contains(y));
                                }
                            }
                            assert forall|k: int| 0 <= k < i + 1 && lo <= active@[k] < hi implies r@.contains(
                                #[trigger] active@[k],
                            ) by {
                                if k < i {
                                    let j = choose|j: int| 0 <= j < before.len() && before[j] == active@[k];
                                    assert(r@[j] == active@[k]);
                                } else {
                                    assert(r@[before.len() as int] == x);
                                }
                            }
                            assert forall|k: int| 0 <= k < r@.len() implies exists|j: int|
                                0 <= j < i + 1 && active@[j] == #[trigger] r@[k] by {
                                if k < before.len() {
                                    let j = choose|j: int| 0 <= j < i && active@[j] == before[k];
                                    assert(active@[j] == r@[k]);
                                } else {
                                    assert(active@[i as int] == r@[k]);
                                }
                            }
                            if ascending(active@) {
                                assert forall|a: int, b: int| 0 <= a < b < r@.len() implies r@[a] < r@[b] by {
                                    if b == before.len() {
                                        let j = choose|j: int| 0 <= j < i && active@[j] == before[a];
                                        assert(active@[j] < active@[i as int]);
                                    }
                                }
                            }
                        }
                    } else {
                        proof {
                            assert forall|k: int| 0 <= k < r@.len() implies exists|j: int|
                                0 <= j < i + 1 && active@[j] == #[trigger] r@[k] by {
                                let j = choose|j: int| 0 <= j < i && active@[j] == r@[k];
                                assert(active@[j] == r@[k]);
                            }
                        }
                    }
                    i += 1;
                }
                proof {
                    assert(active@.subrange(0, active@.len() as int) =~= active@);
                    assert forall|x: usize| active@.contains(x) && lo <= x < hi implies r@.contains(x) by {
                        let k = choose|k: int| 0 <= k < active@.len() && active@[k] == x;
                        assert(r@.contains(active@[k]));
                    }
                }
            },
            None => {},
        }
        r
    }

    /// Reorders the graph with `new_pos_active`, which brings the cached list
    /// of active nodes up to date, then mutates nodes drawn at random among
    /// the computational nodes and outputs until a drawn node stands in that
    /// list, and names that node. Where `usize::MAX` draws have missed, the
    /// first computational node or output of the list is mutated and named.
    /// None is named only where the list holds no computational node and no
    /// output. The cache is that of the reordered graph before the mutations.
    pub fn mutate_single(&mut self, new_pos_active: &Vec<usize>) -> (hit: Option<usize>)
        requires
            old(self).wf(),
            old(self).active_is_current(),
            spacing_fits(old(self).params, old(self).nbr_active_computational(), new_pos_active@),
        ensures
            final(self).wf(),
            final(self).params == old(self).params,
            final(self).output_node_ids@ == old(self).output_node_ids@,
            final(self).active_nodes is Some,
            hit matches Some(v) ==> old(self).params.nbr_inputs <= v < old(self).nodes_grid@.len()
                && final(self).active_nodes->0@.contains(v),
            hit is Some <==> exists|v: usize|
                old(self).params.nbr_inputs <= v < old(self).nodes_grid@.len() && final(self).active_nodes->0@.contains(
                    v,
                ),
            exists|grids: Seq<Seq<NodeReorder>>, draws: Seq<usize>| #[trigger]
                is_spread_then_mutation_until_active(
                    old(self).params,
                    old(self).nodes_grid@,
                    old(self).output_node_ids@,
                    final(self).nodes_grid@,
                    new_pos_active@,
                    final(self).active_nodes->0@,
                    hit,
                    grids,
                    draws,
                ),
    {
        self.reorder(new_pos_active);
        let ghost reordered = self.nodes_grid@;
        let hit = match &self.active_nodes {
            Some(active) => mutate_until_active(&self.params, &mut self.nodes_grid, active),
            None => None,
        };
        proof {
            let params = self.params;
            let active = self.active_nodes->0@;
            let (grids, draws) = choose|grids: Seq<Seq<NodeReorder>>, draws: Seq<usize>| #[trigger]
                is_mutation_until_active(params, reordered, self.nodes_grid@, active, hit, grids, draws);
            assert(is_spread_then_mutation_until_active(
                params,
                old(self).nodes_grid@,
                old(self).output_node_ids@,
                self.nodes_grid@,
                new_pos_active@,
                active,
                hit,
                grids,
                draws,
            ));
        }
        hit
    }

    /// Reorders the graph with `new_pos_active`, which brings the cached list
    /// of active nodes up to date, then mutates each computational node and
    /// output with a chance of `threshold` in `MUTATION_DRAWS`: none where
    /// `threshold` is 0, each of them from `MUTATION_DRAWS` on. The cache is
    /// that of the reordered graph before the mutations.
    pub fn mutate_prob(&mut self, new_pos_active: &Vec<usize>, threshold: u32)
        requires
            old(self).wf(),
            old(self).active_is_current(),
            spacing_fits(old(self).params, old(self).nbr_active_computational(), new_pos_active@),
        ensures
            final(self).wf(),
            final(self).params == old(self).params,
            final(self).output_node_ids@ == old(self).output_node_ids@,
            final(self).active_nodes is Some,
            exists|reordered: Seq<NodeReorder>| #[trigger]
                is_spread_then_mutation_of_each(
                    old(self).params,
                    old(self).nodes_grid@,
                    old(self).output_node_ids@,
                    final(self).nodes_grid@,
                    new_pos_active@,
                    final(self).active_nodes->0@,
                    threshold,
                    reordered,
                ),
    {
        self.reorder(new_pos_active);
        let ghost reordered = self.nodes_grid@;
        mutate_each(&self.params, &mut self.nodes_grid, threshold);
        proof {
            assert(is_spread_then_mutation_of_each(
                self.params,
                old(self).nodes_grid@,
                old(self).output_node_ids@,
                self.nodes_grid@,
                new_pos_active@,
                self.active_nodes->0@,
                threshold,
                reordered,
            ));
        }
    }

    /// Moves the `i`-th active computational node to the `i`-th of the places
    /// `new_pos_active`, which the caller has spread evenly over the
    /// computational region, and the inactive ones to the places left over;
    /// sends the connections of active nodes and outputs after the nodes they
    /// read, and redraws the connections of inactive nodes that no longer
    /// point backward. The cache is brought up to date. What the outputs
    /// compute stays as it was. Where no computational node is active nothing
    /// moves.
    pub fn reorder(&mut self, new_pos_active: &Vec<usize>)
        requires
            old(self).wf(),
            old(self).active_is_current(),
            spacing_fits(old(self).params, old(self).nbr_active_computational(), new_pos_active@),
        ensures
            final(self).wf(),
            final(self).params == old(self).params,
            final(self).output_node_ids@ == old(self).output_node_ids@,
            final(self).active_is_current(),
            new_pos_active@.len() == 0 ==> final(self).nodes_grid@ == old(self).nodes_grid@,
            exists|m: Seq<usize>|
                relabels_active(
                    genes(old(self).nodes_grid@),
                    genes(final(self).nodes_grid@),
                    old(self).output_node_ids@,
                    m,
                ),
            new_pos_active@.len() > 0 ==> is_spread(
                old(self).params,
                old(self).nodes_grid@,
                old(self).output_node_ids@,
                final(self).nodes_grid@,
                new_pos_active@,
            ),
            forall|inputs: Seq<Seq<bool>>, labels: Seq<Seq<bool>>|
                #[trigger] final(self).spec_evaluate(inputs, labels) == old(self).spec_evaluate(inputs, labels),
    {
        assert(self.params.total() == self.nodes_grid.len());
        let stripped = self.active_computational_nodes();
        proof {
            let active = self.active_nodes->0@;
            assert forall|x: usize| stripped@.contains(x) <==> (self.params.nbr_inputs <= x
                < self.params.nbr_inputs + self.params.graph_width && is_active(
                genes(self.nodes_grid@),
                self.output_node_ids@,
                x as int,
            )) by {}
        }
        if stripped.len() == 0 {
            proof {
                let m = Seq::new(self.nodes_grid@.len(), |v: int| v as usize);
                lemma_identity_relabels(self.params, self.nodes_grid@, self.output_node_ids@, m);
            }
            return ;
        }
        self.active_nodes = Some(stripped);
        self.swap_nodes(new_pos_active);
    }

    /// The swap behind `reorder`, for a cache that lists the active
    /// computational nodes.
    fn swap_nodes(&mut self, new_pos_active: &Vec<usize>)
        requires
            old(self).wf(),
            old(self).active_nodes is Some,
            lists_active_computational(
                old(self).params,
                old(self).nodes_grid@,
                old(self).output_node_ids@,
                old(self).active_nodes->0@,
            ),
            spacing_fits(old(self).params, old(self).active_nodes->0@.len(), new_pos_active@),
        ensures
            final(self).wf(),
            final(self).params == old(self).params,
            final(self).output_node_ids@ == old(self).output_node_ids@,
            final(self).active_is_current(),
            exists|m: Seq<usize>|
                relabels_active(
                    genes(old(self).nodes_grid@),
                    genes(final(self).nodes_grid@),
                    old(self).output_node_ids@,
                    m,
                ),
            is_spread(
                old(self).params,
                old(self).nodes_grid@,
                old(self).output_node_ids@,
                final(self).nodes_grid@,
                new_pos_active@,
            ),
            forall|inputs: Seq<Seq<bool>>, labels: Seq<Seq<bool>>|
                #[trigger] final(self).spec_evaluate(inputs, labels) == old(self).spec_evaluate(inputs, labels),
    {
        assert(self.params.total() == self.nodes_grid.len());
        let nbr_inputs = self.params.nbr_inputs;
        let end = self.params.nbr_inputs + self.params.graph_width;
        let total = self.nodes_grid.len();
        let ghost old_nodes = self.nodes_grid@;

        let mut comp_nodes_ids: Vec<usize> = Vec::with_capacity(self.params.graph_width);
        let mut v: usize = nbr_inputs;
        while v < end
            invariant
                nbr_inputs <= v <= end,
                comp_nodes_ids@.len() == v - nbr_inputs,
                forall|k: int| 0 <= k < comp_nodes_ids@.len() ==> comp_nodes_ids@[k] == nbr_inputs + k,
            decreases end - v,
        {
            comp_nodes_ids.push(v);
            v += 1;
        }
        assert(ascending(comp_nodes_ids@));
        let (mut new_nodes_grid, swapped_pos_indices, Ghost(old_inactive), Ghost(new_inactive)) = match &self.active_nodes {
            Some(active) => {
                let old_pos_inactive = vect_difference(&comp_nodes_ids, active);
                let new_pos_inactive = vect_difference(&comp_nodes_ids, new_pos_active);
                proof {
                    assert forall|i: int| 0 <= i < old_pos_inactive@.len() implies nbr_inputs <= (
                    #[trigger] old_pos_inactive@[i]) < end by {
                        assert(old_pos_inactive@.contains(old_pos_inactive@[i]));
                        let k = choose|k: int|
                            0 <= k < comp_nodes_ids@.len() && comp_nodes_ids@[k] == old_pos_inactive@[i];
                    }
                    assert forall|i: int| 0 <= i < new_pos_inactive@.len() implies nbr_inputs <= (
                    #[trigger] new_pos_inactive@[i]) < end && !new_pos_active@.contains(new_pos_inactive@[i]) by {
                        assert(new_pos_inactive@.contains(new_pos_inactive@[i]));
                        let k = choose|k: int|
                            0 <= k < comp_nodes_ids@.len() && comp_nodes_ids@[k] == new_pos_inactive@[i];
                    }
                    assert forall|i: int| 0 <= i < active@.len() implies nbr_inputs <= (#[trigger] active@[i])
                        < end by {
                        assert(active@.contains(active@[i]));
                    }
                    // As many nodes are inactive as places are left over.
                    lemma_ascending_is_distinct(comp_nodes_ids@);
                    lemma_ascending_is_distinct(active@);
                    lemma_ascending_is_distinct(new_pos_active@);
                    assert forall|x: usize| active@.contains(x) implies comp_nodes_ids@.contains(x) by {
                        assert(comp_nodes_ids@[x - nbr_inputs] == x);
                    }
                    assert forall|x: usize| new_pos_active@.contains(x) implies comp_nodes_ids@.contains(x) by {
                        let k = choose|k: int| 0 <= k < new_pos_active@.len() && new_pos_active@[k] == x;
                        assert(comp_nodes_ids@[x - nbr_inputs] == x);
                    }
                    lemma_difference_len(comp_nodes_ids@, active@, old_pos_inactive@);
                    lemma_difference_len(comp_nodes_ids@, new_pos_active@, new_pos_inactive@);
                    assert(old_pos_inactive@.len() == new_pos_inactive@.len());
                }
                let (mut grid, mapping) = place_active(&self.params, &self.nodes_grid, active, new_pos_active);
                place_inactive(&self.params, &self.nodes_grid, &old_pos_inactive, &new_pos_inactive, &mut grid);
                proof {
                    assert(is_complement(self.params, active@, old_pos_inactive@)) by {
                        assert forall|x: usize| old_pos_inactive@.contains(x) <==> (nbr_inputs <= x < end
                            && !active@.contains(x)) by {
                            if nbr_inputs <= x < end {
                                assert(comp_nodes_ids@[x - nbr_inputs] == x);
                            }
                            if comp_nodes_ids@.contains(x) {
                                let k = choose|k: int| 0 <= k < comp_nodes_ids@.len() && comp_nodes_ids@[k] == x;
                            }
                        }
                    }
                    assert(is_complement(self.params, new_pos_active@, new_pos_inactive@)) by {
                        assert forall|x: usize| new_pos_inactive@.contains(x) <==> (nbr_inputs <= x < end
                            && !new_pos_active@.contains(x)) by {
                            if nbr_inputs <= x < end {
                                assert(comp_nodes_ids@[x - nbr_inputs] == x);
                            }
                            if comp_nodes_ids@.contains(x) {
                                let k = choose|k: int| 0 <= k < comp_nodes_ids@.len() && comp_nodes_ids@[k] == x;
                            }
                        }
                    }
                }
                (grid, mapping, Ghost(old_pos_inactive@), Ghost(new_pos_inactive@))
            },
            None => (Vec::new(), Vec::new(), Ghost(Seq::empty()), Ghost(Seq::empty()))};
        let ghost placed = new_nodes_grid@;
        let ghost m = swapped_pos_indices@;
        let ghost a = self.active_nodes->0@;
        let ghost l = new_pos_active@;
        assert(is_complement(self.params, a, old_inactive));
        assert(is_complement(self.params, l, new_inactive));
        assert(old_inactive.len() == new_inactive.len());
        assert forall|i: int| 0 <= i < old_inactive.len() implies moved_inactive(
            old_nodes[old_inactive[i] as int],
            placed[(#[trigger] new_inactive[i]) as int],
            new_inactive[i],
        ) by {}

        // The connections of the active nodes, at their new places.
        let mut i: usize = 0;
        while i < new_pos_active.len()
            invariant
                i <= l.len(),
                l == new_pos_active@,
                m == swapped_pos_indices@,
                m.len() == total,
                new_nodes_grid@.len() == total,
                end <= total,
                ascending(l),
                forall|k: int| 0 <= k < l.len() ==> nbr_inputs <= (#[trigger] l[k]) < end,
                forall|k: int|
                    0 <= k < i ==> new_nodes_grid@[(#[trigger] l[k]) as int] == (NodeReorder {
                        connection1: relabel(m, placed[l[k] as int].connection1),
                        connection2: relabel(m, placed[l[k] as int].connection2),
                        ..placed[l[k] as int]
                    }),
                forall|p: int|
                    0 <= p < total && !(exists|k: int| 0 <= k < i && l[k] == p) ==> (
                    #[trigger] new_nodes_grid@[p]) == placed[p],
            decreases l.len() - i,
        {
            let ghost before = new_nodes_grid@;
            Self::update_connections(&mut new_nodes_grid, new_pos_active[i], &swapped_pos_indices);
            proof {
                assert forall|k: int| 0 <= k < i + 1 implies new_nodes_grid@[(#[trigger] l[k]) as int] == (
                NodeReorder {
                    connection1: relabel(m, placed[l[k] as int].connection1),
                    connection2: relabel(m, placed[l[k] as int].connection2),
                    ..placed[l[k] as int]
                }) by {
                    if k < i {
                        assert(l[k] < l[i as int]);
                    } else {
                        assert(!(exists|j: int| 0 <= j < i && l[j] == l[i as int])) by {
                            if exists|j: int| 0 <= j < i && l[j] == l[i as int] {
                                let j = choose|j: int| 0 <= j < i && l[j] == l[i as int];
                                assert(l[j] < l[i as int]);
                            }
                        }
                    }
                }
                assert forall|p: int|
                    0 <= p < total && !(exists|k: int| 0 <= k < i + 1 && l[k] == p) implies (
                #[trigger] new_nodes_grid@[p]) == placed[p] by {
                    assert(l[i as int] != p);
                    if exists|k: int| 0 <= k < i && l[k] == p {
                        let k = choose|k: int| 0 <= k < i && l[k] == p;
                        assert(0 <= k < i + 1 && l[k] == p);
                    }
                }
            }
            i += 1;
        }
        let ghost relinked = new_nodes_grid@;

        // The connections of the outputs.
        let mut node_id: usize = end;
        while node_id < total
            invariant
                end <= node_id <= total,
                m == swapped_pos_indices@,
                m.len() == total,
                new_nodes_grid@.len() == total,
                forall|p: int|
                    end <= p < node_id ==> (#[trigger] new_nodes_grid@[p]) == (NodeReorder {
                        connection1: relabel(m, relinked[p].connection1),
                        connection2: relabel(m, relinked[p].connection2),
                        ..relinked[p]
                    }),
                forall|p: int|
                    0 <= p < total && !(end <= p < node_id) ==> (#[trigger] new_nodes_grid@[p]) == relinked[p],
            decreases total - node_id,
        {
            Self::update_connections(&mut new_nodes_grid, node_id, &swapped_pos_indices);
            node_id += 1;
        }

        proof {
            let new = new_nodes_grid@;
            assert forall|k: int| 0 <= k < a.len() implies new[(#[trigger] l[k]) as int] == (NodeReorder {
                position: l[k],
                connection1: relabel(m, old_nodes[a[k] as int].connection1),
                connection2: relabel(m, old_nodes[a[k] as int].connection2),
                ..old_nodes[a[k] as int]
            }) by {
                assert(new[l[k] as int] == relinked[l[k] as int]);
                assert(placed[l[k] as int] == (NodeReorder { position: l[k], ..old_nodes[a[k] as int] }));
            }
            assert forall|p: int| nbr_inputs <= p < end && !l.contains(p as usize) implies node_ok(
                self.params,
                #[trigger] new[p],
                p,
            ) by {
                assert(new[p] == relinked[p]);
                assert(!(exists|k: int| 0 <= k < l.len() && l[k] == p)) by {
                    if exists|k: int| 0 <= k < l.len() && l[k] == p {
                        let k = choose|k: int| 0 <= k < l.len() && l[k] == p;
                        assert(l[k] == p as usize);
                    }
                }
                assert(relinked[p] == placed[p]);
            }
            assert forall|p: int| 0 <= p < nbr_inputs implies (#[trigger] new[p]) == old_nodes[p] by {
                assert(new[p] == relinked[p]);
                assert(!(exists|k: int| 0 <= k < l.len() && l[k] == p));
                assert(relinked[p] == placed[p]);
            }
            assert forall|p: int| end <= p < total implies (#[trigger] new[p]) == (NodeReorder {
                connection1: relabel(m, old_nodes[p].connection1),
                connection2: relabel(m, old_nodes[p].connection2),
                ..old_nodes[p]
            }) by {
                assert(!(exists|k: int| 0 <= k < l.len() && l[k] == p));
                assert(relinked[p] == placed[p]);
            }
            assert forall|v: int| 0 <= v < old_nodes.len() && !a.contains(v as usize) implies #[trigger] stays(
                m,
                v,
            ) by {
                assert(m[v] == v);
            }
            assert(swap_plan(self.params, old_nodes, self.output_node_ids@, a, l, m));
            assert(swapped(self.params, old_nodes, new, a, l, m));
            lemma_swap_wf(self.params, old_nodes, new, self.output_node_ids@, a, l, m);
            lemma_swap_relabels(self.params, old_nodes, new, self.output_node_ids@, a, l, m);
            assert forall|i: int| 0 <= i < old_inactive.len() implies moved_inactive(
                old_nodes[old_inactive[i] as int],
                new[(#[trigger] new_inactive[i]) as int],
                new_inactive[i],
            ) by {
                let p = new_inactive[i] as int;
                assert(new_inactive.contains(new_inactive[i]));
                assert(!l.contains(p as usize));
                assert(new[p] == relinked[p]);
                assert(!(exists|k: int| 0 <= k < l.len() && l[k] == p)) by {
                    if exists|k: int| 0 <= k < l.len() && l[k] == p {
                        let k = choose|k: int| 0 <= k < l.len() && l[k] == p;
                        assert(l[k] == p as usize);
                    }
                }
                assert(relinked[p] == placed[p]);
            }
            assert(is_spread(self.params, old_nodes, self.output_node_ids@, new, l));
            lemma_relabel_keeps_matches(self.params, old_nodes, new, self.output_node_ids@, m);
        }
        self.nodes_grid = new_nodes_grid;
        self.get_active_nodes_id();
    }

    /// Sends the two connections of the node at `node_id` to the new places of
    /// the nodes they read.
    fn update_connections(new_nodes_grid: &mut Vec<NodeReorder>, node_id: usize, swapped_pos_indices: &Vec<usize>)
        requires
            node_id < old(new_nodes_grid)@.len(),
        ensures
            final(new_nodes_grid)@ == old(new_nodes_grid)@.update(
                node_id as int,
                NodeReorder {
                    connection1: relabel(swapped_pos_indices@, old(new_nodes_grid)@[node_id as int].connection1),
                    connection2: relabel(swapped_pos_indices@, old(new_nodes_grid)@[node_id as int].connection2),
                    ..old(new_nodes_grid)@[node_id as int]
                },
            ),
    {
        let mut node = new_nodes_grid[node_id];
        let con1 = node.connection1;
        let con2 = node.connection2;
        if con1 < swapped_pos_indices.len() {
            node.connection1 = swapped_pos_indices[con1];
        }
        if con2 < swapped_pos_indices.len() {
            node.connection2 = swapped_pos_indices[con2];
        }
        new_nodes_grid[node_id] = node;
        assert(new_nodes_grid@ =~= old(new_nodes_grid)@.update(
            node_id as int,
            NodeReorder {
                connection1: relabel(swapped_pos_indices@, old(new_nodes_grid)@[node_id as int].connection1),
                connection2: relabel(swapped_pos_indices@, old(new_nodes_grid)@[node_id as int].connection2),
                ..old(new_nodes_grid)@[node_id as int]
            },
        ));
    }
}

/// An ascending list holds no entry twice.
pub proof fn lemma_ascending_is_distinct(s: Seq<usize>)
    requires
        ascending(s),
    ensures
        s.no_duplicates(),
{
    assert forall|i: int, j: int| 0 <= i < s.len() && 0 <= j < s.len() && i != j implies s[i] != s[j] by {
        if i < j {
            assert(s[i] < s[j]);
        } else {
            assert(s[j] < s[i]);
        }
    }
}

/// A grid holds its own active nodes, each at its place.
pub proof fn lemma_identity_relabels(
    params: CgpParameters,
    nodes: Seq<NodeReorder>,
    outputs: Seq<usize>,
    m: Seq<usize>,
)
    requires
        m.len() == nodes.len(),
        forall|v: int| 0 <= v < m.len() ==> m[v] == v,
        forall|v: int, k: int|
            0 <= v < nodes.len() && 0 <= k < dep_graph(genes(nodes))[v].len() ==> (#[trigger] dep_graph(
                genes(nodes),
            )[v][k]) < nodes.len(),
    ensures
        relabels_active(genes(nodes), genes(nodes), outputs, m),
{
    let gs = genes(nodes);
    assert forall|v: int| 0 <= v < gs.len() implies gene_deps(gs[m[v] as int]) == gene_deps(gs[v]).map_values(
        |c: usize| relabel(m, c),
    ) by {
        let d = gene_deps(gs[v]);
        let e = d.map_values(|c: usize| relabel(m, c));
        assert(dep_graph(gs)[v] == d);
        assert forall|k: int| 0 <= k < d.len() implies d[k] == e[k] by {
            assert(dep_graph(gs)[v][k] < nodes.len());
        }
        assert(d =~= e);
    }
}

/// The grid with every node of `active` moved to the place that `new_pos`
/// names for it, and the map from old places to new.
fn place_active(
    params: &CgpParameters,
    nodes: &Vec<NodeReorder>,
    active: &Vec<usize>,
    new_pos: &Vec<usize>,
) -> (r: (Vec<NodeReorder>, Vec<usize>))
    requires
        nodes_wf(*params, nodes@),
        ascending(active@),
        forall|i: int| 0 <= i < active@.len() ==> (#[trigger] active@[i]) < nodes@.len(),
        spacing_fits(*params, active@.len(), new_pos@),
    ensures
        r.0@.len() == nodes@.len(),
        r.1@.len() == nodes@.len(),
        forall|i: int|
            0 <= i < active@.len() ==> r.0@[(#[trigger] new_pos@[i]) as int] == (NodeReorder {
                position: new_pos@[i],
                ..nodes@[active@[i] as int]
            }),
        forall|p: int| 0 <= p < nodes@.len() && !new_pos@.contains(p as usize) ==> (#[trigger] r.0@[p]) == nodes@[p],
        forall|i: int| 0 <= i < active@.len() ==> r.1@[(#[trigger] active@[i]) as int] == new_pos@[i],
        forall|v: int| 0 <= v < nodes@.len() && !active@.contains(v as usize) ==> (#[trigger] r.1@[v]) == v,
{
    let total = nodes.len();
    assert(params.total() == nodes.len());
    let mut new_nodes_grid: Vec<NodeReorder> = nodes.clone();
    assert(new_nodes_grid@ =~= nodes@);
    let mut mapping: Vec<usize> = Vec::with_capacity(total);
    let mut p: usize = 0;
    while p < total
        invariant
            p <= total,
            mapping@.len() == p,
            forall|v: int| 0 <= v < p ==> mapping@[v] == v,
        decreases total - p,
    {
        mapping.push(p);
        p += 1;
    }
    let mut i: usize = 0;
    while i < active.len()
        invariant
            total == nodes@.len(),
            params.total() == total,
            i <= active@.len(),
            ascending(active@),
            forall|k: int| 0 <= k < active@.len() ==> (#[trigger] active@[k]) < nodes@.len(),
            spacing_fits(*params, active@.len(), new_pos@),
            new_nodes_grid@.len() == total,
            mapping@.len() == total,
            forall|k: int|
                0 <= k < i ==> new_nodes_grid@[(#[trigger] new_pos@[k]) as int] == (NodeReorder {
                    position: new_pos@[k],
                    ..nodes@[active@[k] as int]
                }),
            forall|q: int|
                0 <= q < total && !(exists|k: int| 0 <= k < i && new_pos@[k] == q) ==> (
                #[trigger] new_nodes_grid@[q]) == nodes@[q],
            forall|k: int| 0 <= k < i ==> mapping@[(#[trigger] active@[k]) as int] == new_pos@[k],
            forall|v: int|
                0 <= v < total && !(exists|k: int| 0 <= k < i && active@[k] == v) ==> (#[trigger] mapping@[v]) == v,
        decreases active@.len() - i,
    {
        let old_node_id = active[i];
        let new_node_id = new_pos[i];
        let mut node = nodes[old_node_id];
        node.set_new_position(new_node_id, false);
        new_nodes_grid[new_node_id] = node;
        mapping[old_node_id] = new_node_id;
        proof {
            assert forall|k: int| 0 <= k < i + 1 implies new_nodes_grid@[(#[trigger] new_pos@[k]) as int] == (
            NodeReorder { position: new_pos@[k], ..nodes@[active@[k] as int] }) by {
                if k < i {
                    assert(new_pos@[k] < new_pos@[i as int]);
                }
            }
            assert forall|k: int| 0 <= k < i + 1 implies mapping@[(#[trigger] active@[k]) as int] == new_pos@[k] by {
                if k < i {
                    assert(active@[k] < active@[i as int]);
                }
            }
            assert forall|q: int|
                0 <= q < total && !(exists|k: int| 0 <= k < i + 1 && new_pos@[k] == q) implies (
            #[trigger] new_nodes_grid@[q]) == nodes@[q] by {
                assert(new_pos@[i as int] != q);
                if exists|k: int| 0 <= k < i && new_pos@[k] == q {
                    let k = choose|k: int| 0 <= k < i && new_pos@[k] == q;
                    assert(0 <= k < i + 1 && new_pos@[k] == q);
                }
            }
            assert forall|v: int|
                0 <= v < total && !(exists|k: int| 0 <= k < i + 1 && active@[k] == v) implies (
            #[trigger] mapping@[v]) == v by {
                assert(active@[i as int] != v);
                if exists|k: int| 0 <= k < i && active@[k] == v {
                    let k = choose|k: int| 0 <= k < i && active@[k] == v;
                    assert(0 <= k < i + 1 && active@[k] == v);
                }
            }
        }
        i += 1;
    }
    proof {
        assert forall|q: int| 0 <= q < total && !new_pos@.contains(q as usize) implies (
        #[trigger] new_nodes_grid@[q]) == nodes@[q] by {
            if exists|k: int| 0 <= k < i && new_pos@[k] == q {
                let k = choose|k: int| 0 <= k < i && new_pos@[k] == q;
                assert(new_pos@[k] == q as usize);
            }
        }
        assert forall|v: int| 0 <= v < total && !active@.contains(v as usize) implies (#[trigger] mapping@[v])
            == v by {
            if exists|k: int| 0 <= k < i && active@[k] == v {
                let k = choose|k: int| 0 <= k < i && active@[k] == v;
                assert(active@[k] == v as usize);
            }
        }
    }
    (new_nodes_grid, mapping)
}

/// Moves the `i`-th node of `old_pos` to the `i`-th place of `new_pos`,
/// redrawing the connections that would no longer point backward.
fn place_inactive(
    params: &CgpParameters,
    nodes: &Vec<NodeReorder>,
    old_pos: &Vec<usize>,
    new_pos: &Vec<usize>,
    new_nodes_grid: &mut Vec<NodeReorder>,
)
    requires
        nodes_wf(*params, nodes@),
        old(new_nodes_grid)@.len() == nodes@.len(),
        old_pos@.len() == new_pos@.len(),
        ascending(new_pos@),
        forall|i: int|
            0 <= i < old_pos@.len() ==> params.nbr_inputs <= (#[trigger] old_pos@[i]) < params.nbr_inputs
                + params.graph_width,
        forall|i: int|
            0 <= i < new_pos@.len() ==> params.nbr_inputs <= (#[trigger] new_pos@[i]) < params.nbr_inputs
                + params.graph_width,
    ensures
        final(new_nodes_grid)@.len() == nodes@.len(),
        forall|p: int|
            0 <= p < nodes@.len() ==> (#[trigger] final(new_nodes_grid)@[p]) == old(new_nodes_grid)@[p] || (
            new_pos@.contains(p as usize) && node_ok(*params, final(new_nodes_grid)@[p], p)),
        forall|i: int|
            0 <= i < new_pos@.len() ==> moved_inactive(
                nodes@[old_pos@[i] as int],
                final(new_nodes_grid)@[(#[trigger] new_pos@[i]) as int],
                new_pos@[i],
            ),
{
    assert(params.total() == nodes.len());
    let mut i: usize = 0;
    while i < old_pos.len()
        invariant
            old_pos@.len() == new_pos@.len(),
            nodes_wf(*params, nodes@),
            old(new_nodes_grid)@.len() == nodes@.len(),
            params.total() == nodes@.len(),
            new_nodes_grid@.len() == nodes@.len(),
            forall|k: int|
                0 <= k < old_pos@.len() ==> params.nbr_inputs <= (#[trigger] old_pos@[k]) < params.nbr_inputs
                    + params.graph_width,
            forall|k: int|
                0 <= k < new_pos@.len() ==> params.nbr_inputs <= (#[trigger] new_pos@[k]) < params.nbr_inputs
                    + params.graph_width,
            forall|p: int|
                0 <= p < nodes@.len() ==> (#[trigger] new_nodes_grid@[p]) == old(new_nodes_grid)@[p] || (
                new_pos@.contains(p as usize) && node_ok(*params, new_nodes_grid@[p], p)),
            i <= old_pos@.len(),
            ascending(new_pos@),
            forall|k: int|
                0 <= k < i ==> moved_inactive(
                    nodes@[old_pos@[k] as int],
                    new_nodes_grid@[(#[trigger] new_pos@[k]) as int],
                    new_pos@[k],
                ),
        decreases old_pos@.len() - i,
    {
        let old_node_id = old_pos[i];
        let new_node_id = new_pos[i];
        let mut node = nodes[old_node_id];
        assert(node.wf() && node.position == old_node_id);
        assert(new_node_id > 0) by {
            let first = nodes@[params.nbr_inputs as int];
            assert(first.wf() && first.position == params.nbr_inputs);
        }
        node.set_new_position(new_node_id, true);
        let ghost before = new_nodes_grid@;
        new_nodes_grid[new_node_id] = node;
        assert(new_pos@.contains(new_node_id));
        proof {
            assert forall|k: int| 0 <= k < i + 1 implies moved_inactive(
                nodes@[old_pos@[k] as int],
                new_nodes_grid@[(#[trigger] new_pos@[k]) as int],
                new_pos@[k],
            ) by {
                if k < i {
                    assert(new_pos@[k] < new_pos@[i as int]);
                    assert(new_nodes_grid@[new_pos@[k] as int] == before[new_pos@[k] as int]);
                }
            }
        }
        i += 1;
    }
}

} // verus!
