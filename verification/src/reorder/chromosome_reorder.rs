//! A boolean graph whose computational nodes are shuffled into a random
//! dependency-respecting order before every mutation.

use vstd::prelude::*;
use crate::global_params::CgpParameters;
use crate::reorder::node_reorder::NodeReorder;
use crate::utils::boolean_grid::{
    active_fits, active_order, check_nodes, check_outputs, evaluate_grid, grid_matches,
    is_mutation_of_each, is_mutation_until_active, lemma_grid_layout, lemma_relabel_keeps_matches,
    matrices_fit, mutate_each, mutate_until_active, nodes_wf, outputs_wf, random_grid,
};
use crate::utils::evaluation::filled;
use crate::utils::fitness_metrics::rows;
use crate::utils::graph::{
    array_layout, gene_deps, genes, relabel, relabels_active, role_at, Gene, GraphNode,
};
use crate::utils::marking::{
    count_false, lemma_count_false_all, lemma_count_false_set, lemma_count_false_witness,
};
use crate::utils::node_type::NodeType;
use crate::utils::random::random_below;

verus! {

/// What a connection needs to be read at a new place: it is an input, or a
/// computational node that has its new place already.
pub open spec fn satisfied(c: usize, placed: Seq<bool>, nbr_inputs: usize) -> bool {
    c < nbr_inputs || (c - nbr_inputs < placed.len() && placed[c - nbr_inputs])
}

/// `new` holds the nodes of `old`, the computational nodes moved as `m` says
/// and every connection sent through `m`; inputs and outputs keep their places.
pub open spec fn is_reordering(
    old: Seq<NodeReorder>,
    new: Seq<NodeReorder>,
    m: Seq<usize>,
    nbr_inputs: int,
    graph_width: int,
) -> bool {
    &&& new.len() == old.len()
    &&& m.len() == old.len()
    &&& forall|v: int|
        0 <= v < old.len() ==> {
            &&& if nbr_inputs <= v < nbr_inputs + graph_width {
                nbr_inputs <= m[v] < nbr_inputs + graph_width
            } else {
                m[v] == v
            }
            &&& m[v] < old.len()
            &&& new[m[v] as int] == (NodeReorder {
                position: m[v],
                connection1: relabel(m, (#[trigger] old[v]).connection1),
                connection2: relabel(m, old[v].connection2),
                ..old[v]
            })
        }
    &&& forall|u: int, v: int| 0 <= u < v < old.len() ==> m[u] != m[v]
}

/// `m` gives every computational node a place of its own among the
/// computational nodes, after the places of the nodes it reads, and leaves
/// inputs and outputs where they are; `order[i]` is the node placed `i`-th.
pub open spec fn is_placement(
    nodes: Seq<NodeReorder>,
    m: Seq<usize>,
    order: Seq<usize>,
    nbr_inputs: int,
    graph_width: int,
) -> bool {
    &&& m.len() == nodes.len()
    &&& order.len() == graph_width
    &&& forall|i: int|
        0 <= i < order.len() ==> nbr_inputs <= (#[trigger] order[i]) < nbr_inputs + graph_width && m[order[i] as int]
            == nbr_inputs + i
    &&& forall|v: int|
        nbr_inputs <= v < nbr_inputs + graph_width && v < nodes.len() ==> {
            &&& nbr_inputs <= m[v] < nbr_inputs + graph_width
            &&& order[m[v] - nbr_inputs] == v
            &&& (#[trigger] nodes[v]).connection1 >= nbr_inputs ==> m[nodes[v].connection1 as int] < m[v]
            &&& nodes[v].connection2 >= nbr_inputs ==> m[nodes[v].connection2 as int] < m[v]
        }
    &&& forall|v: int|
        0 <= v < nodes.len() && !(nbr_inputs <= v < nbr_inputs + graph_width) ==> (#[trigger] m[v]) == v
}



/// A graph of the boolean array encoding: the nodes by position, the
/// positions of the outputs, and the cached positions of the active nodes.
pub struct Chromosome {
    pub params: CgpParameters,
    pub nodes_grid: Vec<NodeReorder>,
    pub output_node_ids: Vec<usize>,
    pub active_nodes: Option<Vec<usize>>,
}

/// A reordering sends the wiring of the old grid to that of the new.
pub proof fn lemma_reordering_relabels(
    old: Seq<NodeReorder>,
    new: Seq<NodeReorder>,
    m: Seq<usize>,
    nbr_inputs: int,
    graph_width: int,
    outputs: Seq<usize>,
)
    requires
        is_reordering(old, new, m, nbr_inputs, graph_width),
        forall|v: int|
            0 <= v < old.len() ==> (#[trigger] old[v]).node_type == role_at(v, nbr_inputs, graph_width),
    ensures
        relabels_active(genes(old), genes(new), outputs, m),
{
    let go = genes(old);
    let gn = genes(new);
    assert forall|v: int| 0 <= v < go.len() implies {
        &&& (#[trigger] m[v]) < go.len()
        &&& gn[m[v] as int].node_type == go[v].node_type
        &&& gn[m[v] as int].function_id == go[v].function_id
        &&& gn[m[v] as int].binary == go[v].binary
        &&& gene_deps(gn[m[v] as int]) == gene_deps(go[v]).map_values(|c: usize| relabel(m, c))
        &&& go[v].node_type != NodeType::ComputationalNode ==> m[v] == v
    } by {
        let node = old[v];
        assert(new[m[v] as int] == (NodeReorder {
            position: m[v],
            connection1: relabel(m, node.connection1),
            connection2: relabel(m, node.connection2),
            ..node
        }));
        assert(gn[m[v] as int] == new[m[v] as int].gene());
        assert(go[v] == node.gene());
        assert(gene_deps(gn[m[v] as int]) =~= gene_deps(go[v]).map_values(|c: usize| relabel(m, c)));
    }
}

/// Moving the nodes as a placement says and sending the connections after them
/// gives a reordering, and a well-formed graph.
pub proof fn lemma_placement_reorders(
    old: Chromosome,
    new: Chromosome,
    moved: Seq<NodeReorder>,
    m: Seq<usize>,
    order: Seq<usize>,
)
    requires
        old.wf(),
        new.params == old.params,
        new.output_node_ids@ == old.output_node_ids@,
        is_placement(old.nodes_grid@, m, order, old.params.nbr_inputs as int, old.params.graph_width as int),
        moved.len() == old.nodes_grid@.len(),
        new.nodes_grid@.len() == old.nodes_grid@.len(),
        forall|u: int|
            0 <= u < old.nodes_grid@.len() ==> moved[m[u] as int] == (NodeReorder {
                position: m[u],
                ..(#[trigger] old.nodes_grid@[u])
            }),
        forall|q: int|
            old.params.nbr_inputs <= q < moved.len() ==> (#[trigger] new.nodes_grid@[q]) == (NodeReorder {
                connection1: relabel(m, moved[q].connection1),
                connection2: relabel(m, moved[q].connection2),
                ..moved[q]
            }),
        forall|q: int| 0 <= q < old.params.nbr_inputs && q < moved.len() ==> (#[trigger] new.nodes_grid@[q]) == moved[q],
    ensures
        new.wf(),
        is_reordering(
            old.nodes_grid@,
            new.nodes_grid@,
            m,
            old.params.nbr_inputs as int,
            old.params.graph_width as int,
        ),
{
    let nbr_inputs = old.params.nbr_inputs;
    let graph_width = old.params.graph_width;
    let end = nbr_inputs + graph_width;
    let old_nodes = old.nodes_grid@;
    let new_nodes = new.nodes_grid@;
    let total = old_nodes.len();
    assert(old.params.total() == old.nodes_grid.len());
    assert forall|v: int| 0 <= v < total implies {
        &&& if nbr_inputs <= v < nbr_inputs + graph_width {
            nbr_inputs <= m[v] < nbr_inputs + graph_width
        } else {
            m[v] == v
        }
        &&& m[v] < total
        &&& new_nodes[m[v] as int] == (NodeReorder {
            position: m[v],
            connection1: relabel(m, (#[trigger] old_nodes[v]).connection1),
            connection2: relabel(m, old_nodes[v].connection2),
            ..old_nodes[v]
        })
    } by {
        let node = old_nodes[v];
        assert(node.wf() && node.position == v);
        assert(moved[m[v] as int] == (NodeReorder { position: m[v], ..node }));
        if nbr_inputs <= v < end {
            assert(nbr_inputs <= m[v] < end);
        } else {
            assert(m[v] == v);
        }
    }
    assert forall|u: int, v: int| 0 <= u < v < total implies m[u] != m[v] by {
        let node_u = old_nodes[u];
        let node_v = old_nodes[v];
        if nbr_inputs <= u < end {
            assert(nbr_inputs <= m[u] < end);
            assert(order[m[u] - nbr_inputs] == u);
        } else {
            assert(m[u] == u);
        }
        if nbr_inputs <= v < end {
            assert(nbr_inputs <= m[v] < end);
            assert(order[m[v] - nbr_inputs] == v);
        } else {
            assert(m[v] == v);
        }
    }
    assert forall|q: int| 0 <= q < total implies {
        let node = #[trigger] new_nodes[q];
        &&& node.wf()
        &&& node.position == q
        &&& node.nbr_inputs == nbr_inputs
        &&& node.graph_width == graph_width
        &&& node.node_type == role_at(q, nbr_inputs as int, graph_width as int)
    } by {
        let v: int = if nbr_inputs <= q < end {
            order[q - nbr_inputs] as int
        } else {
            q
        };
        assert(m[v] == q);
        let node = old_nodes[v];
        assert(node.wf() && node.position == v);
        assert(new_nodes[q] == (NodeReorder {
            position: m[v],
            connection1: relabel(m, node.connection1),
            connection2: relabel(m, node.connection2),
            ..node
        }));
        if node.connection1 < total {
            let c = node.connection1 as int;
            let read = old_nodes[c];
            if nbr_inputs <= c < end {
                assert(nbr_inputs <= m[c] < end);
            } else {
                assert(m[c] == c);
            }
        }
        if node.connection2 < total {
            let c = node.connection2 as int;
            let read = old_nodes[c];
            if nbr_inputs <= c < end {
                assert(nbr_inputs <= m[c] < end);
            } else {
                assert(m[c] == c);
            }
        }
    }
}

/// A reordered graph computes at its outputs what the graph computed before.
pub proof fn lemma_reordering_keeps_outputs(old: Chromosome, new: Chromosome, m: Seq<usize>)
    requires
        old.wf(),
        new.params == old.params,
        is_reordering(
            old.nodes_grid@,
            new.nodes_grid@,
            m,
            old.params.nbr_inputs as int,
            old.params.graph_width as int,
        ),
    ensures
        forall|inputs: Seq<Seq<bool>>, labels: Seq<Seq<bool>>|
            #[trigger] new.spec_evaluate(inputs, labels) == old.spec_evaluate(inputs, labels),
{
    assert(old.params.total() == old.nodes_grid.len());
    lemma_reordering_relabels(
        old.nodes_grid@,
        new.nodes_grid@,
        m,
        old.params.nbr_inputs as int,
        old.params.graph_width as int,
        old.output_node_ids@,
    );
    lemma_relabel_keeps_matches(old.params, old.nodes_grid@, new.nodes_grid@, old.output_node_ids@, m);
}

/// What a mutation until an active node is hit does to a graph that is
/// reordered before: `m` reorders `old` into the first grid of `grids`, whose
/// active nodes `active` lists, and from which `new` comes by the mutations
/// that `draws` and `grids` tell.
pub open spec fn is_reordering_then_mutation_until_active(
    params: CgpParameters,
    old: Seq<NodeReorder>,
    outputs: Seq<usize>,
    new: Seq<NodeReorder>,
    active: Seq<usize>,
    hit: Option<usize>,
    m: Seq<usize>,
    grids: Seq<Seq<NodeReorder>>,
    draws: Seq<usize>,
) -> bool {
    &&& grids.len() > 0
    &&& is_reordering(old, grids[0], m, params.nbr_inputs as int, params.graph_width as int)
    &&& nodes_wf(params, grids[0])
    &&& active_fits(grids[0], outputs, active)
    &&& is_mutation_until_active(params, grids[0], new, active, hit, grids, draws)
}

/// What a mutation of each node with a chance does to a graph that is
/// reordered before: `m` reorders `old` into `reordered`, whose active nodes
/// `active` lists, and from which `new` comes by the mutations.
pub open spec fn is_reordering_then_mutation_of_each(
    params: CgpParameters,
    old: Seq<NodeReorder>,
    outputs: Seq<usize>,
    new: Seq<NodeReorder>,
    active: Seq<usize>,
    threshold: u32,
    m: Seq<usize>,
    reordered: Seq<NodeReorder>,
) -> bool {
    &&& is_reordering(old, reordered, m, params.nbr_inputs as int, params.graph_width as int)
    &&& nodes_wf(params, reordered)
    &&& active_fits(reordered, outputs, active)
    &&& is_mutation_of_each(params, reordered, new, threshold)
}

impl Clone for Chromosome {
    fn clone(&self) -> (r: Self)
        ensures
            r.same_as(self),
    {
        let nodes_grid = self.nodes_grid.clone();
        let output_node_ids = self.output_node_ids.clone();
        let active_nodes = match &self.active_nodes {
            Some(active) => {
                let copy = active.clone();
                assert(copy@ =~= active@);
                Some(copy)
            },
            None => None,
        };
        assert(nodes_grid@ =~= self.nodes_grid@);
        assert(output_node_ids@ =~= self.output_node_ids@);
        Self { params: self.params, nodes_grid, output_node_ids, active_nodes }
    }
}

impl Chromosome {
    /// The two graphs hold the same parameters, nodes, outputs and cache.
    pub open spec fn same_as(&self, other: &Self) -> bool {
        &&& self.params == other.params
        &&& self.nodes_grid@ == other.nodes_grid@
        &&& self.output_node_ids@ == other.output_node_ids@
        &&& self.active_nodes is Some == other.active_nodes is Some
        &&& self.active_nodes is Some ==> self.active_nodes->0@ == other.active_nodes->0@
    }

    /// The wiring of the grid.
    pub open spec fn genes(&self) -> Seq<Gene> {
        genes(self.nodes_grid@)
    }

    /// The position of the first output.
    pub open spec fn first_output(&self) -> int {
        self.params.nbr_inputs + self.params.graph_width
    }

    /// The grid holds inputs, then computational nodes, then outputs, each node
    /// at its position and wired as its role asks.
    pub open spec fn wf(&self) -> bool {
        &&& nodes_wf(self.params, self.nodes_grid@)
        &&& outputs_wf(self.params, self.output_node_ids@)
    }

    /// The cached list of active nodes is there and fits the grid: ascending,
    /// holding exactly the positions that influence an output.
    pub open spec fn active_is_current(&self) -> bool {
        &&& self.active_nodes matches Some(active)
        &&& active_fits(self.nodes_grid@, self.output_node_ids@, active@)
    }

    /// `other` has the parameters and the outputs of this graph.
    pub open spec fn same_frame(&self, other: &Self) -> bool {
        &&& self.params == other.params
        &&& self.output_node_ids@ == other.output_node_ids@
    }

    /// The number of bits in which the outputs agree with `labels` on `inputs`.
    pub open spec fn spec_evaluate(&self, inputs: Seq<Seq<bool>>, labels: Seq<Seq<bool>>) -> nat {
        grid_matches(self.params, self.nodes_grid@, inputs, labels)
    }

    /// A well-formed grid has the array layout.
    pub proof fn lemma_layout(&self)
        requires
            self.wf(),
        ensures
            array_layout(
                self.genes(),
                self.params.nbr_inputs as int,
                self.params.graph_width as int,
                self.params.nbr_outputs as int,
            ),
    {
        lemma_grid_layout(self.params, self.nodes_grid@);
    }

    /// Whether the graph is well-formed.
    pub fn check_wf(&self) -> (b: bool)
        ensures
            b == self.wf(),
    {
        if !check_nodes(&self.params, &self.nodes_grid) {
            return false;
        }
        assert(self.params.total() == self.nodes_grid.len());
        check_outputs(&self.params, &self.output_node_ids)
    }

    /// A graph of random nodes.
    pub fn new(params: CgpParameters) -> (r: Self)
        requires
            params.wf(),
        ensures
            r.wf(),
            r.params == params,
            r.active_nodes is None,
    {
        let (nodes_grid, output_node_ids) = random_grid(&params);
        Self { params, nodes_grid, output_node_ids, active_nodes: None }
    }

    /// Finds the nodes that influence an output and caches their positions in
    /// ascending order, which is an order in which they can be evaluated.
    pub fn get_active_nodes_id(&mut self)
        requires
            old(self).wf(),
        ensures
            final(self).wf(),
            final(self).params == old(self).params,
            final(self).nodes_grid@ == old(self).nodes_grid@,
            final(self).output_node_ids@ == old(self).output_node_ids@,
            final(self).active_is_current(),
    {
        let active = active_order(&self.params, &self.nodes_grid, &self.output_node_ids);
        self.active_nodes = Some(active);
    }

    /// The computational nodes that can be placed next: those without a new
    /// place whose connections are satisfied, in ascending order.
    fn get_addable(&self, placed: &Vec<bool>) -> (addable: Vec<usize>)
        requires
            self.wf(),
            placed@.len() == self.params.graph_width,
        ensures
            forall|i: int|
                0 <= i < addable@.len() ==> {
                    let a = #[trigger] addable@[i];
                    &&& self.params.nbr_inputs <= a < self.params.nbr_inputs + self.params.graph_width
                    &&& !placed@[a - self.params.nbr_inputs]
                    &&& satisfied(self.nodes_grid@[a as int].connection1, placed@, self.params.nbr_inputs)
                    &&& satisfied(self.nodes_grid@[a as int].connection2, placed@, self.params.nbr_inputs)
                },
            forall|v: int|
                self.params.nbr_inputs <= v < self.params.nbr_inputs + self.params.graph_width && !placed@[v
                    - self.params.nbr_inputs] && satisfied(
                    self.nodes_grid@[v].connection1,
                    placed@,
                    self.params.nbr_inputs,
                ) && satisfied(self.nodes_grid@[v].connection2, placed@, self.params.nbr_inputs)
                    ==> addable@.contains(v as usize),
            (exists|i: int| 0 <= i < placed@.len() && !placed@[i]) ==> addable@.len() > 0,
    {
        let nbr_inputs = self.params.nbr_inputs;
        assert(self.params.total() == self.nodes_grid.len());
        let end = self.params.nbr_inputs + self.params.graph_width;
        let mut addable: Vec<usize> = Vec::new();
        let mut v: usize = nbr_inputs;
        while v < end
            invariant
                self.wf(),
                placed@.len() == self.params.graph_width,
                nbr_inputs == self.params.nbr_inputs,
                end == nbr_inputs + self.params.graph_width,
                nbr_inputs <= v <= end,
                forall|i: int|
                    0 <= i < addable@.len() ==> {
                        let a = #[trigger] addable@[i];
                        &&& nbr_inputs <= a < v
                        &&& !placed@[a - nbr_inputs]
                        &&& satisfied(self.nodes_grid@[a as int].connection1, placed@, nbr_inputs)
                        &&& satisfied(self.nodes_grid@[a as int].connection2, placed@, nbr_inputs)
                    },
                forall|u: int|
                    nbr_inputs <= u < v && !placed@[u - nbr_inputs] && satisfied(
                        self.nodes_grid@[u].connection1,
                        placed@,
                        nbr_inputs,
                    ) && satisfied(self.nodes_grid@[u].connection2, placed@, nbr_inputs) ==> addable@.contains(
                        u as usize,
                    ),
                (exists|i: int| 0 <= i < v - nbr_inputs && !placed@[i]) ==> addable@.len() > 0,
            decreases end - v,
        {
            let ghost before = addable@;
            if !placed[v - nbr_inputs] {
                let node = self.nodes_grid[v];
                assert(node.wf() && node.position == v && node.node_type == NodeType::ComputationalNode);
                let first = node.connection1 < nbr_inputs || placed[node.connection1 - nbr_inputs];
                let second = node.connection2 < nbr_inputs || placed[node.connection2 - nbr_inputs];
                if first && second {
                    addable.push(v);
                    assert(addable@[before.len() as int] == v);
                } else {
                    assert(exists|i: int| 0 <= i < v - nbr_inputs && !placed@[i]) by {
                        if !first {
                            assert(!placed@[node.connection1 - nbr_inputs]);
                        } else {
                            assert(!placed@[node.connection2 - nbr_inputs]);
                        }
                    }
                }
            }
            assert forall|u: int|
                nbr_inputs <= u < v + 1 && !placed@[u - nbr_inputs] && satisfied(
                    self.nodes_grid@[u].connection1,
                    placed@,
                    nbr_inputs,
                ) && satisfied(self.nodes_grid@[u].connection2, placed@, nbr_inputs) implies addable@.contains(
                u as usize,
            ) by {
                if u < v {
                    let i = choose|i: int| 0 <= i < before.len() && before[i] == u as usize;
                    assert(addable@[i] == u as usize);
                }
            }
            assert((exists|i: int| 0 <= i < v + 1 - nbr_inputs && !placed@[i]) ==> addable@.len() > 0) by {
                if exists|i: int| 0 <= i < v + 1 - nbr_inputs && !placed@[i] {
                    let i = choose|i: int| 0 <= i < v + 1 - nbr_inputs && !placed@[i];
                    if i < v - nbr_inputs {
                    }
                }
            }
            v += 1;
        }
        addable
    }

    /// Reorders the graph, which brings the cached list of active nodes up to
    /// date, then mutates nodes drawn at random among the computational nodes
    /// and outputs until a drawn node stands in that list, and names that
    /// node. Where `usize::MAX` draws have missed, the first computational
    /// node or output of the list is mutated and named. None is named only
    /// where the list holds no computational node and no output. The cache
    /// is that of the reordered graph before the mutations.
    pub fn mutate_single(&mut self) -> (hit: Option<usize>)
        requires
            old(self).wf(),
        ensures
            final(self).wf(),
            final(self).same_frame(old(self)),
            final(self).active_nodes is Some,
            hit matches Some(v) ==> old(self).params.nbr_inputs <= v < old(self).nodes_grid@.len() && final(self).active_nodes->0@.contains(v),
            hit is Some <==> exists|v: usize|
                old(self).params.nbr_inputs <= v < old(self).nodes_grid@.len() && final(self).active_nodes->0@.contains(v),
            exists|m: Seq<usize>, grids: Seq<Seq<NodeReorder>>, draws: Seq<usize>| #[trigger]
                is_reordering_then_mutation_until_active(
                    old(self).params,
                    old(self).nodes_grid@,
                    old(self).output_node_ids@,
                    final(self).nodes_grid@,
                    final(self).active_nodes->0@,
                    hit,
                    m,
                    grids,
                    draws,
                ),
    {
        self.reorder();
        let ghost reordered = self.nodes_grid@;
        let ghost active = self.active_nodes->0@;
        assert(self.params.total() == self.nodes_grid.len());
        let hit = match &self.active_nodes {
            Some(active) => mutate_until_active(&self.params, &mut self.nodes_grid, active),
            None => None,
        };
        proof {
            let params = self.params;
            let m = choose|m: Seq<usize>|
                is_reordering(
                    old(self).nodes_grid@,
                    reordered,
                    m,
                    params.nbr_inputs as int,
                    params.graph_width as int,
                );
            let (grids, draws) = choose|grids: Seq<Seq<NodeReorder>>, draws: Seq<usize>| #[trigger]
                is_mutation_until_active(params, reordered, self.nodes_grid@, active, hit, grids, draws);
            assert(is_reordering_then_mutation_until_active(
                params,
                old(self).nodes_grid@,
                old(self).output_node_ids@,
                self.nodes_grid@,
                active,
                hit,
                m,
                grids,
                draws,
            ));
        }
        hit
    }

    /// Reorders the graph, which brings the cached list of active nodes up to
    /// date, then mutates each computational node and output with a chance of
    /// `threshold` in `MUTATION_DRAWS`: none where `threshold` is 0, each of
    /// them from `MUTATION_DRAWS` on. The cache is that of the reordered graph
    /// before the mutations.
    pub fn mutate_prob(&mut self, threshold: u32)
        requires
            old(self).wf(),
        ensures
            final(self).wf(),
            final(self).same_frame(old(self)),
            final(self).active_nodes is Some,
            threshold == 0 ==> final(self).active_is_current(),
            exists|m: Seq<usize>, reordered: Seq<NodeReorder>| #[trigger]
                is_reordering_then_mutation_of_each(
                    old(self).params,
                    old(self).nodes_grid@,
                    old(self).output_node_ids@,
                    final(self).nodes_grid@,
                    final(self).active_nodes->0@,
                    threshold,
                    m,
                    reordered,
                ),
    {
        self.reorder();
        let ghost reordered = self.nodes_grid@;
        mutate_each(&self.params, &mut self.nodes_grid, threshold);
        proof {
            let params = self.params;
            let m = choose|m: Seq<usize>|
                is_reordering(
                    old(self).nodes_grid@,
                    reordered,
                    m,
                    params.nbr_inputs as int,
                    params.graph_width as int,
                );
            assert(is_reordering_then_mutation_of_each(
                params,
                old(self).nodes_grid@,
                old(self).output_node_ids@,
                self.nodes_grid@,
                self.active_nodes->0@,
                threshold,
                m,
                reordered,
            ));
        }
    }

    /// Draws a new place for every computational node: again and again one of
    /// the nodes that can be placed next, each with the same chance, takes the
    /// next place.
    fn random_placement(&self) -> (r: (Vec<usize>, Ghost<Seq<usize>>))
        requires
            self.wf(),
        ensures
            is_placement(
                self.nodes_grid@,
                r.0@,
                r.1@,
                self.params.nbr_inputs as int,
                self.params.graph_width as int,
            ),
    {
        let nbr_inputs = self.params.nbr_inputs;
        let graph_width = self.params.graph_width;
        assert(self.params.total() == self.nodes_grid.len());
        let end = nbr_inputs + graph_width;
        let total = self.nodes_grid.len();
        let ghost old_nodes = self.nodes_grid@;

        let mut mapping: Vec<usize> = Vec::with_capacity(total);
        let mut p: usize = 0;
        while p < total
            invariant
                p <= total,
                mapping@.len() == p,
                forall|v: int| 0 <= v < p ==> mapping@[v] == v,
            decreases total - p,
        {
            mapping.push(p);
            p += 1;
        }
        let mut placed: Vec<bool> = filled(false, graph_width);
        let ghost mut order: Seq<usize> = Seq::empty();
        proof {
            lemma_count_false_all(placed@);
        }

        let mut new_node_index = nbr_inputs;
        while new_node_index < end
            invariant
                self.wf(),
                self.nodes_grid@ == old_nodes,
                nbr_inputs == self.params.nbr_inputs,
                graph_width == self.params.graph_width,
                end == nbr_inputs + graph_width,
                total == self.nodes_grid@.len(),
                end <= total,
                nbr_inputs <= new_node_index <= end,
                mapping@.len() == total,
                placed@.len() == graph_width,
                count_false(placed@) == end - new_node_index,
                order.len() == new_node_index - nbr_inputs,
                forall|i: int|
                    0 <= i < order.len() ==> nbr_inputs <= (#[trigger] order[i]) < end && placed@[order[i]
                        - nbr_inputs] && mapping@[order[i] as int] == nbr_inputs + i,
                forall|v: int|
                    nbr_inputs <= v < end && placed@[v - nbr_inputs] ==> {
                        &&& nbr_inputs <= (#[trigger] mapping@[v]) < new_node_index
                        &&& order[mapping@[v] - nbr_inputs] == v
                        &&& satisfied(old_nodes[v].connection1, placed@, nbr_inputs)
                        &&& satisfied(old_nodes[v].connection2, placed@, nbr_inputs)
                        &&& old_nodes[v].connection1 >= nbr_inputs ==> mapping@[old_nodes[v].connection1 as int]
                            < mapping@[v]
                        &&& old_nodes[v].connection2 >= nbr_inputs ==> mapping@[old_nodes[v].connection2 as int]
                            < mapping@[v]
                    },
                forall|v: int|
                    0 <= v < total && !(nbr_inputs <= v < end && placed@[v - nbr_inputs]) ==> (
                    #[trigger] mapping@[v]) == v,
            decreases end - new_node_index,
        {
            proof {
                lemma_count_false_witness(placed@);
            }
            let addable = self.get_addable(&placed);
            let i = random_below(addable.len());
            let current_node_id = addable[i];
            let ghost placed_before = placed@;
            let ghost mapping_before = mapping@;
            let ghost order_before = order;
            proof {
                lemma_count_false_set(placed@, current_node_id - nbr_inputs);
            }
            mapping[current_node_id] = new_node_index;
            placed[current_node_id - nbr_inputs] = true;
            proof {
                order = order.push(current_node_id);
                assert forall|i: int| 0 <= i < order.len() implies nbr_inputs <= (#[trigger] order[i]) < end
                    && placed@[order[i] - nbr_inputs] && mapping@[order[i] as int] == nbr_inputs + i by {
                    if i < order_before.len() {
                        assert(order[i] == order_before[i]);
                        assert(placed_before[order_before[i] - nbr_inputs]);
                    }
                }
                assert forall|v: int| nbr_inputs <= v < end && placed@[v - nbr_inputs] implies {
                    &&& nbr_inputs <= (#[trigger] mapping@[v]) < new_node_index + 1
                    &&& order[mapping@[v] - nbr_inputs] == v
                    &&& satisfied(old_nodes[v].connection1, placed@, nbr_inputs)
                    &&& satisfied(old_nodes[v].connection2, placed@, nbr_inputs)
                    &&& old_nodes[v].connection1 >= nbr_inputs ==> mapping@[old_nodes[v].connection1 as int]
                        < mapping@[v]
                    &&& old_nodes[v].connection2 >= nbr_inputs ==> mapping@[old_nodes[v].connection2 as int]
                        < mapping@[v]
                } by {
                    let node = old_nodes[v];
                    assert(node.wf() && node.position == v);
                    if v == current_node_id {
                        assert(satisfied(node.connection1, placed_before, nbr_inputs));
                        assert(satisfied(node.connection2, placed_before, nbr_inputs));
                        if node.connection1 >= nbr_inputs {
                            assert(placed_before[node.connection1 - nbr_inputs]);
                            assert(mapping_before[node.connection1 as int] < new_node_index);
                        }
                        if node.connection2 >= nbr_inputs {
                            assert(placed_before[node.connection2 - nbr_inputs]);
                            assert(mapping_before[node.connection2 as int] < new_node_index);
                        }
                    } else {
                        assert(placed_before[v - nbr_inputs]);
                        assert(mapping_before[v] == mapping@[v]);
                        assert(order_before[mapping_before[v] - nbr_inputs] == v);
                        assert(satisfied(node.connection1, placed_before, nbr_inputs));
                        assert(satisfied(node.connection2, placed_before, nbr_inputs));
                        if node.connection1 >= nbr_inputs {
                            assert(placed_before[node.connection1 - nbr_inputs]);
                            assert(node.connection1 != current_node_id);
                        }
                        if node.connection2 >= nbr_inputs {
                            assert(placed_before[node.connection2 - nbr_inputs]);
                            assert(node.connection2 != current_node_id);
                        }
                    }
                }
            }
            new_node_index += 1;
        }
        proof {
            lemma_count_false_witness(placed@);
        }
        (mapping, Ghost(order))
    }

    /// Puts every computational node at its new place.
    fn update_node_index(&mut self, location_mapping: &Vec<usize>, Ghost(order): Ghost<Seq<usize>>)
        requires
            old(self).wf(),
            is_placement(
                old(self).nodes_grid@,
                location_mapping@,
                order,
                old(self).params.nbr_inputs as int,
                old(self).params.graph_width as int,
            ),
        ensures
            final(self).params == old(self).params,
            final(self).output_node_ids@ == old(self).output_node_ids@,
            final(self).active_nodes == old(self).active_nodes,
            final(self).nodes_grid@.len() == old(self).nodes_grid@.len(),
            forall|u: int|
                0 <= u < old(self).nodes_grid@.len() ==> final(self).nodes_grid@[location_mapping@[u] as int] == (
                NodeReorder { position: location_mapping@[u], ..(#[trigger] old(self).nodes_grid@[u]) }),
    {
        let nbr_inputs = self.params.nbr_inputs;
        assert(self.params.total() == self.nodes_grid.len());
        let end = nbr_inputs + self.params.graph_width;
        let total = self.nodes_grid.len();
        let ghost old_nodes = self.nodes_grid@;
        let ghost m = location_mapping@;
        let mut new_nodes_grid: Vec<NodeReorder> = self.nodes_grid.clone();
        assert(new_nodes_grid@ =~= old_nodes);
        let mut v: usize = nbr_inputs;
        while v < end
            invariant
                self.wf(),
                self.nodes_grid@ == old_nodes,
                nbr_inputs == self.params.nbr_inputs,
                end == nbr_inputs + self.params.graph_width,
                total == old_nodes.len(),
                end <= total,
                nbr_inputs <= v <= end,
                location_mapping@ == m,
                is_placement(old_nodes, m, order, nbr_inputs as int, self.params.graph_width as int),
                new_nodes_grid@.len() == total,
                forall|u: int|
                    nbr_inputs <= u < v ==> new_nodes_grid@[m[u] as int] == (NodeReorder {
                        position: m[u],
                        ..(#[trigger] old_nodes[u])
                    }),
                forall|q: int|
                    0 <= q < total && !(nbr_inputs <= q < end) ==> (#[trigger] new_nodes_grid@[q]) == old_nodes[q],
            decreases end - v,
        {
            let mut node = self.nodes_grid[v];
            let new_position = location_mapping[v];
            assert(nbr_inputs <= m[v as int] < end);
            node.set_new_position(new_position, false);
            let ghost grid_before = new_nodes_grid@;
            new_nodes_grid[new_position] = node;
            proof {
                assert forall|u: int| nbr_inputs <= u < v + 1 implies new_nodes_grid@[m[u] as int] == (NodeReorder {
                    position: m[u],
                    ..(#[trigger] old_nodes[u])
                }) by {
                    if u < v {
                        assert(nbr_inputs <= m[u] < end);
                        assert(order[m[u] - nbr_inputs] == u);
                        assert(order[m[v as int] - nbr_inputs] == v);
                        assert(grid_before[m[u] as int] == (NodeReorder { position: m[u], ..old_nodes[u] }));
                    }
                }
            }
            v += 1;
        }
        self.nodes_grid = new_nodes_grid;
        proof {
            assert forall|u: int| 0 <= u < total implies self.nodes_grid@[m[u] as int] == (NodeReorder {
                position: m[u],
                ..(#[trigger] old_nodes[u])
            }) by {
                if !(nbr_inputs <= u < end) {
                    assert(m[u] == u);
                    assert(old_nodes[u].wf() && old_nodes[u].position == u);
                }
            }
        }
    }

    /// Sends the connections of every computational node and output to the new
    /// places of the nodes they read.
    fn update_node_connections(&mut self, location_mapping: &Vec<usize>)
        requires
            old(self).nodes_grid@.len() == old(self).params.total(),
            location_mapping@.len() == old(self).nodes_grid@.len(),
        ensures
            final(self).params == old(self).params,
            final(self).output_node_ids@ == old(self).output_node_ids@,
            final(self).active_nodes == old(self).active_nodes,
            final(self).nodes_grid@.len() == old(self).nodes_grid@.len(),
            forall|q: int|
                old(self).params.nbr_inputs <= q < old(self).nodes_grid@.len() ==> (
                #[trigger] final(self).nodes_grid@[q]) == (NodeReorder {
                    connection1: relabel(location_mapping@, old(self).nodes_grid@[q].connection1),
                    connection2: relabel(location_mapping@, old(self).nodes_grid@[q].connection2),
                    ..old(self).nodes_grid@[q]
                }),
            forall|q: int|
                0 <= q < old(self).params.nbr_inputs && q < old(self).nodes_grid@.len() ==> (
                #[trigger] final(self).nodes_grid@[q]) == old(self).nodes_grid@[q],
    {
        let nbr_inputs = self.params.nbr_inputs;
        let total = self.nodes_grid.len();
        let ghost moved = self.nodes_grid@;
        let ghost m = location_mapping@;
        let mut node_id: usize = nbr_inputs;
        while node_id < total
            invariant
                nbr_inputs == self.params.nbr_inputs,
                self.params == old(self).params,
                self.output_node_ids@ == old(self).output_node_ids@,
                self.active_nodes == old(self).active_nodes,
                total == moved.len(),
                nbr_inputs <= node_id <= total,
                location_mapping@ == m,
                m.len() == total,
                self.nodes_grid@.len() == total,
                forall|q: int|
                    nbr_inputs <= q < node_id ==> (#[trigger] self.nodes_grid@[q]) == (NodeReorder {
                        connection1: relabel(m, moved[q].connection1),
                        connection2: relabel(m, moved[q].connection2),
                        ..moved[q]
                    }),
                forall|q: int|
                    0 <= q < total && !(nbr_inputs <= q < node_id) ==> (#[trigger] self.nodes_grid@[q]) == moved[q],
            decreases total - node_id,
        {
            let mut node = self.nodes_grid[node_id];
            if node.connection1 < total {
                node.set_connection1(location_mapping[node.connection1]);
            }
            if node.connection2 < total {
                node.set_connection2(location_mapping[node.connection2]);
            }
            self.nodes_grid[node_id] = node;
            node_id += 1;
        }
    }

    /// Gives the computational nodes new places in a random order in which
    /// every node comes after the nodes it reads, rewrites positions and
    /// connections to match, and brings the cached list of active nodes up to
    /// date. What the outputs compute stays as it was.
    pub fn reorder(&mut self)
        requires
            old(self).wf(),
        ensures
            final(self).wf(),
            final(self).params == old(self).params,
            final(self).output_node_ids@ == old(self).output_node_ids@,
            final(self).active_is_current(),
            exists|m: Seq<usize>|
                is_reordering(
                    old(self).nodes_grid@,
                    final(self).nodes_grid@,
                    m,
                    old(self).params.nbr_inputs as int,
                    old(self).params.graph_width as int,
                ),
            forall|inputs: Seq<Seq<bool>>, labels: Seq<Seq<bool>>|
                #[trigger] final(self).spec_evaluate(inputs, labels) == old(self).spec_evaluate(inputs, labels),
    {
        let (changed_locations, Ghost(order)) = self.random_placement();
        self.update_node_index(&changed_locations, Ghost(order));
        let ghost moved = self.nodes_grid@;
        assert(self.params.total() == self.nodes_grid.len()) by {
            assert(old(self).params.total() == old(self).nodes_grid.len());
        }
        self.update_node_connections(&changed_locations);
        proof {
            lemma_placement_reorders(*old(self), *self, moved, changed_locations@, order);
            lemma_reordering_keeps_outputs(*old(self), *self, changed_locations@);
        }
        let ghost moved_graph = *self;
        let active = active_order(&self.params, &self.nodes_grid, &self.output_node_ids);
        self.active_nodes = Some(active);
        assert forall|inputs: Seq<Seq<bool>>, labels: Seq<Seq<bool>>|
            #[trigger] self.spec_evaluate(inputs, labels) == old(self).spec_evaluate(inputs, labels) by {
            assert(self.spec_evaluate(inputs, labels) == moved_graph.spec_evaluate(inputs, labels));
        }
    }

    /// Evaluates the graph on every sample of `inputs` and counts the output
    /// bits that agree with `labels`.
    pub fn evaluate(&mut self, inputs: &Vec<Vec<bool>>, labels: &Vec<Vec<bool>>) -> (matches: usize)
        requires
            old(self).wf(),
            matrices_fit(old(self).params, inputs@, labels@),
        ensures
            final(self).wf(),
            final(self).params == old(self).params,
            final(self).nodes_grid@ == old(self).nodes_grid@,
            final(self).output_node_ids@ == old(self).output_node_ids@,
            final(self).active_is_current(),
            matches == old(self).spec_evaluate(rows(inputs@), rows(labels@)),
            matches <= inputs@.len() * old(self).params.nbr_outputs,
    {
        self.get_active_nodes_id();
        match &self.active_nodes {
            Some(active) => evaluate_grid(
                &self.params,
                &self.nodes_grid,
                &self.output_node_ids,
                active,
                inputs,
                labels,
            ),
            None => 0,
        }
    }
}

} // verus!
