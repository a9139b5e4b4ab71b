//! The wiring of a graph, whichever encoding holds it: which positions a node
//! reads, which positions influence an output, and in which orders the nodes
//! can be evaluated.

use vstd::prelude::*;
use crate::utils::cycle_checker::{
    has_edge, is_walk, lemma_closed_holds_reached, lemma_reaches_edge, lemma_reaches_step, reaches,
    targets_in_range,
};
use crate::utils::marking::{count_false, lemma_count_false_set};
use crate::utils::node_type::NodeType;

verus! {

/// What the graph algorithms read of a node.
#[derive(Clone, Copy, Debug)]
pub struct Gene {
    pub node_type: NodeType,
    pub function_id: usize,
    pub connection1: usize,
    pub connection2: usize,
    /// Whether the node's function reads both connections.
    pub binary: bool,
}

/// A node of some encoding.
pub trait GraphNode {
    /// The wiring of the node.
    spec fn gene(&self) -> Gene;

    fn to_gene(&self) -> (g: Gene)
        ensures
            g == self.gene(),
    ;
}

/// The wiring of every node of a grid.
pub open spec fn genes<N: GraphNode>(nodes: Seq<N>) -> Seq<Gene> {
    Seq::new(nodes.len(), |i: int| nodes[i].gene())
}

/// The positions a node reads: none for an input, one for an output or a unary
/// function, two for a binary function.
pub open spec fn gene_deps(g: Gene) -> Seq<usize> {
    match g.node_type {
        NodeType::InputNode => Seq::empty(),
        NodeType::OutputNode => seq![g.connection1],
        NodeType::ComputationalNode => if g.binary {
            seq![g.connection1, g.connection2]
        } else {
            seq![g.connection1]
        },
    }
}

/// For each position, the positions it reads.
pub open spec fn dep_graph(genes: Seq<Gene>) -> Seq<Seq<usize>> {
    Seq::new(genes.len(), |i: int| gene_deps(genes[i]))
}

/// Every position that some node reads exists.
pub open spec fn links_in_range(genes: Seq<Gene>) -> bool {
    targets_in_range(dep_graph(genes))
}

/// Position `v` is an output or is read, directly or through other nodes, by one.
pub open spec fn is_active(genes: Seq<Gene>, outputs: Seq<usize>, v: int) -> bool {
    exists|k: int|
        0 <= k < outputs.len() && (#[trigger] outputs[k] == v || reaches(
            dep_graph(genes),
            outputs[k] as int,
            v,
        ))
}

/// What an active node reads is active.
pub proof fn lemma_active_closed(genes: Seq<Gene>, outputs: Seq<usize>, v: int, d: int)
    requires
        is_active(genes, outputs, v),
        has_edge(dep_graph(genes), v, d),
    ensures
        is_active(genes, outputs, d),
{
    let k = choose|k: int|
        0 <= k < outputs.len() && (#[trigger] outputs[k] == v || reaches(
            dep_graph(genes),
            outputs[k] as int,
            v,
        ));
    if outputs[k] == v {
        lemma_reaches_edge(dep_graph(genes), v, d);
    } else {
        lemma_reaches_step(dep_graph(genes), outputs[k] as int, v, d);
    }
}

/// A marking that holds the outputs and is closed under reading holds every
/// active position.
pub proof fn lemma_closed_marking_holds_active(
    genes: Seq<Gene>,
    outputs: Seq<usize>,
    marked: Seq<bool>,
    v: int,
)
    requires
        marked.len() == genes.len(),
        links_in_range(genes),
        forall|k: int| 0 <= k < outputs.len() ==> (#[trigger] outputs[k]) < genes.len() && marked[outputs[k] as int],
        forall|u: int, k: int|
            0 <= u < genes.len() && marked[u] && 0 <= k < dep_graph(genes)[u].len() ==> marked[(
            #[trigger] dep_graph(genes)[u][k]) as int],
        is_active(genes, outputs, v),
    ensures
        0 <= v < genes.len(),
        marked[v],
{
    let g = dep_graph(genes);
    let k = choose|k: int|
        0 <= k < outputs.len() && (#[trigger] outputs[k] == v || reaches(g, outputs[k] as int, v));
    if outputs[k] != v {
        let o = outputs[k] as int;
        let p = choose|p: Seq<int>| is_walk(g, p) && p.len() >= 2 && p[0] == o && #[trigger] p.last() == v;
        lemma_closed_holds_reached(g, o, marked, p, p.len() - 1);
    }
}

/// Marks the positions that influence an output.
pub fn mark_active<N: GraphNode>(nodes: &Vec<N>, outputs: &Vec<usize>) -> (active: Vec<bool>)
    requires
        links_in_range(genes(nodes@)),
        forall|k: int| 0 <= k < outputs@.len() ==> (#[trigger] outputs@[k]) < nodes@.len(),
    ensures
        active@.len() == nodes@.len(),
        forall|v: int| 0 <= v < nodes@.len() ==> active@[v] == is_active(genes(nodes@), outputs@, v),
{
    let n = nodes.len();
    let ghost gs = genes(nodes@);
    let ghost g = dep_graph(gs);
    let mut active: Vec<bool> = vec![false; n];
    let mut to_visit: Vec<usize> = Vec::new();
    let ghost mut done: Set<int> = Set::empty();

    let mut k: usize = 0;
    while k < outputs.len()
        invariant
            n == nodes@.len(),
            active@.len() == n,
            k <= outputs@.len(),
            forall|i: int| 0 <= i < outputs@.len() ==> (#[trigger] outputs@[i]) < n,
            forall|i: int| 0 <= i < to_visit@.len() ==> (#[trigger] to_visit@[i]) < n && active@[to_visit@[i] as int],
            forall|v: int| 0 <= v < n && #[trigger] active@[v] ==> is_active(gs, outputs@, v),
            forall|v: int| 0 <= v < n && #[trigger] active@[v] ==> to_visit@.contains(v as usize),
            forall|i: int| 0 <= i < k ==> active@[(#[trigger] outputs@[i]) as int],
        decreases outputs@.len() - k,
    {
        let output = outputs[k];
        let ghost before = to_visit@;
        to_visit.push(output);
        active[output] = true;
        assert forall|v: int| 0 <= v < n && #[trigger] active@[v] implies to_visit@.contains(v as usize) by {
            if v == output {
                assert(to_visit@[before.len() as int] == output);
            } else {
                let i = choose|i: int| 0 <= i < before.len() && before[i] == v as usize;
                assert(to_visit@[i] == v as usize);
            }
        }
        k += 1;
    }

    while to_visit.len() > 0
        invariant
            n == nodes@.len(),
            gs == genes(nodes@),
            g == dep_graph(gs),
            targets_in_range(g),
            active@.len() == n,
            forall|i: int| 0 <= i < outputs@.len() ==> (#[trigger] outputs@[i]) < n && active@[outputs@[i] as int],
            forall|i: int| 0 <= i < to_visit@.len() ==> (#[trigger] to_visit@[i]) < n && active@[to_visit@[i] as int],
            forall|v: int| 0 <= v < n && #[trigger] active@[v] ==> is_active(gs, outputs@, v),
            forall|v: int| 0 <= v < n && #[trigger] active@[v] ==> done.contains(v) || to_visit@.contains(v as usize),
            forall|v: int| #[trigger] done.contains(v) ==> 0 <= v < n,
            forall|v: int, i: int| done.contains(v) && 0 <= i < g[v].len() ==> active@[(#[trigger] g[v][i]) as int],
        decreases 2 * count_false(active@) + to_visit@.len(),
    {
        let ghost stack_before = to_visit@;
        let ghost measure = 2 * count_false(active@) + to_visit@.len();
        let current = to_visit.pop().unwrap();
        assert forall|v: int| 0 <= v < n && #[trigger] active@[v] implies v == current || done.contains(v)
            || to_visit@.contains(v as usize) by {
            if !done.contains(v) {
                let i = choose|i: int| 0 <= i < stack_before.len() && stack_before[i] == v as usize;
                if i < stack_before.len() - 1 {
                    assert(to_visit@[i] == v as usize);
                }
            }
        }
        let gene = nodes[current].to_gene();
        assert(gene == gs[current as int]);
        assert(g[current as int] == gene_deps(gene));
        let reads: usize = match gene.node_type {
            NodeType::InputNode => 0,
            NodeType::OutputNode => 1,
            NodeType::ComputationalNode => if gene.binary {
                2
            } else {
                1
            },
        };
        assert(reads == g[current as int].len());
        let mut j: usize = 0;
        while j < reads
            invariant
                n == nodes@.len(),
                gs == genes(nodes@),
                g == dep_graph(gs),
                targets_in_range(g),
                active@.len() == n,
                current < n,
                active@[current as int],
                gene == gs[current as int],
                g[current as int] == gene_deps(gene),
                reads == g[current as int].len(),
                reads <= 2,
                j <= reads,
                forall|i: int| 0 <= i < outputs@.len() ==> (#[trigger] outputs@[i]) < n && active@[outputs@[i] as int],
                forall|i: int| 0 <= i < to_visit@.len() ==> (#[trigger] to_visit@[i]) < n && active@[to_visit@[i] as int],
                forall|v: int| 0 <= v < n && #[trigger] active@[v] ==> is_active(gs, outputs@, v),
                forall|v: int| 0 <= v < n && #[trigger] active@[v] ==> v == current || done.contains(v)
                    || to_visit@.contains(v as usize),
                forall|v: int| #[trigger] done.contains(v) ==> 0 <= v < n,
                forall|v: int, i: int| done.contains(v) && 0 <= i < g[v].len() ==> active@[(#[trigger] g[v][i]) as int],
                forall|i: int| 0 <= i < j ==> active@[(#[trigger] g[current as int][i]) as int],
                2 * count_false(active@) + to_visit@.len() + 1 <= measure,
            decreases reads - j,
        {
            let connection = if j == 0 {
                gene.connection1
            } else {
                gene.connection2
            };
            assert(connection == g[current as int][j as int]);
            if !active[connection] {
                proof {
                    assert(has_edge(g, current as int, connection as int));
                    lemma_active_closed(gs, outputs@, current as int, connection as int);
                    lemma_count_false_set(active@, connection as int);
                }
                let ghost before = to_visit@;
                to_visit.push(connection);
                active[connection] = true;
                assert forall|v: int| 0 <= v < n && #[trigger] active@[v] implies v == current
                    || done.contains(v) || to_visit@.contains(v as usize) by {
                    if v == connection {
                        assert(to_visit@[before.len() as int] == connection);
                    } else if v != current && !done.contains(v) {
                        let i = choose|i: int| 0 <= i < before.len() && before[i] == v as usize;
                        assert(to_visit@[i] == v as usize);
                    }
                }
            }
            j += 1;
        }
        proof {
            done = done.insert(current as int);
        }
    }
    proof {
        assert forall|v: int| 0 <= v < n implies active@[v] == is_active(gs, outputs@, v) by {
            if is_active(gs, outputs@, v) {
                lemma_closed_marking_holds_active(gs, outputs@, active@, v);
            }
        }
    }
    active
}

/// Strictly ascending.
pub open spec fn ascending(s: Seq<usize>) -> bool {
    forall|i: int, j: int| 0 <= i < j < s.len() ==> s[i] < s[j]
}

/// The marked positions, in ascending order.
pub fn collect_marked(marked: &Vec<bool>) -> (r: Vec<usize>)
    ensures
        ascending(r@),
        forall|v: usize| r@.contains(v) <==> (v < marked@.len() && marked@[v as int]),
{
    let mut r: Vec<usize> = Vec::new();
    let mut v: usize = 0;
    while v < marked.len()
        invariant
            v <= marked@.len(),
            ascending(r@),
            forall|i: int| 0 <= i < r@.len() ==> (#[trigger] r@[i]) < v && marked@[r@[i] as int],
            forall|u: usize| u < v && marked@[u as int] ==> r@.contains(u),
        decreases marked@.len() - v,
    {
        if marked[v] {
            let ghost before = r@;
            r.push(v);
            assert forall|u: usize| u < v + 1 && marked@[u as int] implies r@.contains(u) by {
                if u == v {
                    assert(r@[before.len() as int] == v);
                } else {
                    let i = choose|i: int| 0 <= i < before.len() && before[i] == u;
                    assert(r@[i] == u);
                }
            }
        }
        v += 1;
    }
    r
}

/// Whether `x` stands in `list`.
pub fn contains(list: &Vec<usize>, x: usize) -> (b: bool)
    ensures
        b == list@.contains(x),
{
    let mut i: usize = 0;
    while i < list.len()
        invariant
            i <= list@.len(),
            forall|k: int| 0 <= k < i ==> list@[k] != x,
        decreases list@.len() - i,
    {
        if list[i] == x {
            return true;
        }
        i += 1;
    }
    false
}

/// No entry of `list` before place `k` lies from `start` up to, not
/// including, `end`.
pub open spec fn none_listed_before(list: Seq<usize>, start: int, end: int, k: int) -> bool {
    forall|j: int| 0 <= j < k && j < list.len() ==> !(start <= (#[trigger] list[j]) && list[j] < end)
}

/// `v` is the first entry of `list` that lies from `start` up to, not
/// including, `end`.
pub open spec fn is_first_listed(list: Seq<usize>, start: int, end: int, v: usize) -> bool {
    exists|k: int|
        0 <= k < list.len() && #[trigger] list[k] == v && start <= v < end && none_listed_before(
            list,
            start,
            end,
            k,
        )
}

/// The first entry of `list` that lies from `start` up to, not including,
/// `end`, if there is one.
pub fn first_listed(list: &Vec<usize>, start: usize, end: usize) -> (r: Option<usize>)
    ensures
        match r {
            Some(v) => is_first_listed(list@, start as int, end as int, v) && list@.contains(v),
            None => forall|v: usize| start <= v < end ==> !list@.contains(v),
        },
{
    let mut i: usize = 0;
    while i < list.len()
        invariant
            i <= list@.len(),
            none_listed_before(list@, start as int, end as int, i as int),
        decreases list@.len() - i,
    {
        if start <= list[i] && list[i] < end {
            assert(list@[i as int] == list@[i as int]);
            return Some(list[i]);
        }
        i += 1;
    }
    assert forall|v: usize| start <= v < end implies !list@.contains(v) by {
        if list@.contains(v) {
            let k = choose|k: int| 0 <= k < list@.len() && list@[k] == v;
            assert(!(start <= list@[k] && list@[k] < end));
        }
    }
    None
}

/// Every node reads only positions before its own.
pub open spec fn reads_backward(genes: Seq<Gene>) -> bool {
    forall|v: int, k: int|
        0 <= v < genes.len() && 0 <= k < dep_graph(genes)[v].len() ==> (#[trigger] dep_graph(genes)[v][k]) < v
}

/// Position `t` stands among the first `k` entries of `order`.
pub open spec fn placed_before(order: Seq<usize>, k: int, t: usize) -> bool {
    exists|j: int| 0 <= j < k && j < order.len() && order[j] == t
}

/// `order` lists positions of the graph, none twice, each after all that it reads.
pub open spec fn is_evaluation_order(genes: Seq<Gene>, order: Seq<usize>) -> bool {
    &&& forall|k: int| 0 <= k < order.len() ==> (#[trigger] order[k]) < genes.len()
    &&& forall|i: int, j: int| 0 <= i < j < order.len() ==> order[i] != order[j]
    &&& forall|k: int, d: int|
        0 <= k < order.len() && 0 <= d < dep_graph(genes)[order[k] as int].len() ==> placed_before(
            order,
            k,
            #[trigger] dep_graph(genes)[order[k] as int][d],
        )
}

/// `order` lists exactly the positions that influence an output.
pub open spec fn lists_active(genes: Seq<Gene>, outputs: Seq<usize>, order: Seq<usize>) -> bool {
    forall|v: usize| order.contains(v) <==> (v < genes.len() && is_active(genes, outputs, v as int))
}

/// Where every node reads backward, the active positions in ascending order are
/// an evaluation order.
pub proof fn lemma_ascending_active_is_evaluation_order(
    genes: Seq<Gene>,
    outputs: Seq<usize>,
    order: Seq<usize>,
)
    requires
        reads_backward(genes),
        ascending(order),
        lists_active(genes, outputs, order),
    ensures
        is_evaluation_order(genes, order),
{
    let g = dep_graph(genes);
    assert forall|k: int| 0 <= k < order.len() implies (#[trigger] order[k]) < genes.len() by {
        assert(order.contains(order[k]));
    }
    assert forall|k: int, d: int|
        0 <= k < order.len() && 0 <= d < g[order[k] as int].len() implies placed_before(
        order,
        k,
        #[trigger] g[order[k] as int][d],
    ) by {
        let v = order[k];
        let t = g[v as int][d];
        assert(order.contains(v));
        assert(has_edge(g, v as int, t as int));
        lemma_active_closed(genes, outputs, v as int, t as int);
        assert(t < v);
        assert(order.contains(t));
        let j = choose|j: int| 0 <= j < order.len() && order[j] == t;
        if j >= k {
            if j > k {
                assert(order[k] < order[j]);
            }
            assert(false);
        }
    }
}

/// The layout of the array encodings: inputs first, then computational nodes
/// that read earlier positions, then outputs that read a position before the
/// outputs.
pub open spec fn array_layout(genes: Seq<Gene>, nbr_inputs: int, graph_width: int, nbr_outputs: int) -> bool {
    &&& 0 <= nbr_inputs && 0 <= graph_width && 0 <= nbr_outputs
    &&& genes.len() == nbr_inputs + graph_width + nbr_outputs
    &&& forall|v: int|
        0 <= v < genes.len() ==> if v < nbr_inputs {
            (#[trigger] genes[v]).node_type == NodeType::InputNode
        } else if v < nbr_inputs + graph_width {
            &&& genes[v].node_type == NodeType::ComputationalNode
            &&& genes[v].connection1 < v
            &&& genes[v].connection2 < v
        } else {
            &&& genes[v].node_type == NodeType::OutputNode
            &&& genes[v].connection1 < nbr_inputs + graph_width
        }
}

/// The role of the node at position `v` of the array and DAG layouts.
pub open spec fn role_at(v: int, nbr_inputs: int, graph_width: int) -> NodeType {
    if v < nbr_inputs {
        NodeType::InputNode
    } else if v < nbr_inputs + graph_width {
        NodeType::ComputationalNode
    } else {
        NodeType::OutputNode
    }
}

/// The positions of the outputs, in order.
pub open spec fn output_positions(nbr_inputs: int, graph_width: int, nbr_outputs: int) -> Seq<usize> {
    Seq::new(nbr_outputs as nat, |k: int| (nbr_inputs + graph_width + k) as usize)
}

/// In the array layout every connection that is read exists and points backward.
pub proof fn lemma_array_layout(genes: Seq<Gene>, nbr_inputs: int, graph_width: int, nbr_outputs: int)
    requires
        array_layout(genes, nbr_inputs, graph_width, nbr_outputs),
    ensures
        links_in_range(genes),
        reads_backward(genes),
{
    let g = dep_graph(genes);
    assert forall|v: int, k: int| 0 <= v < g.len() && 0 <= k < g[v].len() implies (#[trigger] g[v][k]) < v by {
        let gene = genes[v];
        assert(g[v] == gene_deps(gene));
    }
}

/// Where `m` sends a connection: a position to its new place, anything else to
/// itself.
pub open spec fn relabel(m: Seq<usize>, c: usize) -> usize {
    if c < m.len() {
        m[c as int]
    } else {
        c
    }
}

/// `new` holds each active node `v` of `old` at position `m[v]`, with the
/// connections it reads sent through `m`; only computational nodes move.
pub open spec fn relabels_active(old: Seq<Gene>, new: Seq<Gene>, outputs: Seq<usize>, m: Seq<usize>) -> bool {
    &&& new.len() == old.len()
    &&& m.len() == old.len()
    &&& forall|v: int|
        0 <= v < old.len() && is_active(old, outputs, v) ==> {
            &&& (#[trigger] m[v]) < old.len()
            &&& new[m[v] as int].node_type == old[v].node_type
            &&& new[m[v] as int].function_id == old[v].function_id
            &&& new[m[v] as int].binary == old[v].binary
            &&& gene_deps(new[m[v] as int]) == gene_deps(old[v]).map_values(|c: usize| relabel(m, c))
            &&& old[v].node_type != NodeType::ComputationalNode ==> m[v] == v
        }
}

/// A relabelled node has the value it had.
pub proof fn lemma_relabel_keeps_value(
    old: Seq<Gene>,
    new: Seq<Gene>,
    outputs: Seq<usize>,
    m: Seq<usize>,
    row: Seq<bool>,
    v: int,
    fuel: nat,
)
    requires
        relabels_active(old, new, outputs, m),
        links_in_range(old),
        0 <= v < old.len(),
        is_active(old, outputs, v),
    ensures
        node_value(new, row, m[v] as int, fuel) == node_value(old, row, v, fuel),
    decreases fuel,
{
    if fuel > 0 {
        let g = old[v];
        let h = new[m[v] as int];
        let deps = dep_graph(old)[v];
        assert(deps == gene_deps(g));
        let image = gene_deps(g).map_values(|c: usize| relabel(m, c));
        assert(gene_deps(h) == image);
        match g.node_type {
            NodeType::InputNode => {},
            NodeType::OutputNode => {
                let c = deps[0];
                assert(image[0] == relabel(m, c));
                assert(gene_deps(h)[0] == h.connection1);
                assert(has_edge(dep_graph(old), v, c as int));
                lemma_active_closed(old, outputs, v, c as int);
                lemma_relabel_keeps_value(old, new, outputs, m, row, c as int, (fuel - 1) as nat);
            },
            NodeType::ComputationalNode => {
                let c = deps[0];
                assert(image[0] == relabel(m, c));
                assert(gene_deps(h)[0] == h.connection1);
                assert(has_edge(dep_graph(old), v, c as int));
                lemma_active_closed(old, outputs, v, c as int);
                lemma_relabel_keeps_value(old, new, outputs, m, row, c as int, (fuel - 1) as nat);
                if g.binary {
                    let d = deps[1];
                    assert(image[1] == relabel(m, d));
                    assert(gene_deps(h)[1] == h.connection2);
                    assert(has_edge(dep_graph(old), v, d as int));
                    lemma_active_closed(old, outputs, v, d as int);
                    lemma_relabel_keeps_value(old, new, outputs, m, row, d as int, (fuel - 1) as nat);
                }
            },
        }
    }
}

/// An active node is active at its new place.
pub proof fn lemma_relabel_keeps_active(
    old: Seq<Gene>,
    new: Seq<Gene>,
    outputs: Seq<usize>,
    m: Seq<usize>,
    v: int,
)
    requires
        relabels_active(old, new, outputs, m),
        links_in_range(old),
        forall|k: int|
            0 <= k < outputs.len() ==> (#[trigger] outputs[k]) < old.len() && old[outputs[k] as int].node_type
                != NodeType::ComputationalNode,
        is_active(old, outputs, v),
    ensures
        0 <= v < old.len(),
        is_active(new, outputs, m[v] as int),
{
    let marked = Seq::new(
        old.len(),
        |u: int| is_active(old, outputs, u) && is_active(new, outputs, m[u] as int),
    );
    assert forall|k: int| 0 <= k < outputs.len() implies (#[trigger] outputs[k]) < old.len() && marked[outputs[k] as int] by {
        let o = outputs[k] as int;
        assert(is_active(old, outputs, o));
        assert(m[o] == o);
        assert(is_active(new, outputs, o));
    }
    assert forall|u: int, k: int|
        0 <= u < old.len() && marked[u] && 0 <= k < dep_graph(old)[u].len() implies marked[(
    #[trigger] dep_graph(old)[u][k]) as int] by {
        let d = dep_graph(old)[u][k];
        assert(dep_graph(old)[u] == gene_deps(old[u]));
        assert(has_edge(dep_graph(old), u, d as int));
        lemma_active_closed(old, outputs, u, d as int);
        let image = gene_deps(old[u]).map_values(|c: usize| relabel(m, c));
        assert(image[k] == relabel(m, d));
        assert(dep_graph(new)[m[u] as int] == gene_deps(new[m[u] as int]));
        assert(dep_graph(new)[m[u] as int][k] == m[d as int]);
        assert(has_edge(dep_graph(new), m[u] as int, m[d as int] as int));
        lemma_active_closed(new, outputs, m[u] as int, m[d as int] as int);
    }
    lemma_closed_marking_holds_active(old, outputs, marked, v);
}

/// Position `p` of the relabelled graph holds an active node of the old one.
pub open spec fn holds_active(old: Seq<Gene>, outputs: Seq<usize>, m: Seq<usize>, p: int) -> bool {
    exists|v: int| 0 <= v < old.len() && is_active(old, outputs, v) && #[trigger] m[v] == p
}

/// A node that is active in the relabelled graph was active at its old place:
/// together with `lemma_relabel_keeps_active`, relabelling keeps the active
/// nodes, and with them the inactive ones, as many as they were.
pub proof fn lemma_relabel_adds_no_active(
    old: Seq<Gene>,
    new: Seq<Gene>,
    outputs: Seq<usize>,
    m: Seq<usize>,
    p: int,
)
    requires
        relabels_active(old, new, outputs, m),
        links_in_range(old),
        links_in_range(new),
        forall|k: int|
            0 <= k < outputs.len() ==> (#[trigger] outputs[k]) < old.len() && old[outputs[k] as int].node_type
                != NodeType::ComputationalNode,
        is_active(new, outputs, p),
    ensures
        holds_active(old, outputs, m, p),
{
    let marked = Seq::new(new.len(), |q: int| holds_active(old, outputs, m, q));
    assert forall|k: int| 0 <= k < outputs.len() implies (#[trigger] outputs[k]) < new.len() && marked[outputs[k] as int] by {
        let o = outputs[k] as int;
        assert(is_active(old, outputs, o));
        assert(m[o] == o);
    }
    assert forall|u: int, k: int|
        0 <= u < new.len() && marked[u] && 0 <= k < dep_graph(new)[u].len() implies marked[(
    #[trigger] dep_graph(new)[u][k]) as int] by {
        let v = choose|v: int| 0 <= v < old.len() && is_active(old, outputs, v) && #[trigger] m[v] == u;
        let e = dep_graph(new)[u][k];
        assert(dep_graph(new)[u] == gene_deps(new[u]));
        assert(dep_graph(old)[v] == gene_deps(old[v]));
        let image = gene_deps(old[v]).map_values(|c: usize| relabel(m, c));
        assert(gene_deps(new[m[v] as int]) == image);
        let d = gene_deps(old[v])[k];
        assert(image[k] == relabel(m, d));
        assert(dep_graph(old)[v][k] == d);
        assert(d < old.len());
        assert(has_edge(dep_graph(old), v, d as int));
        lemma_active_closed(old, outputs, v, d as int);
        assert(m[d as int] == e);
        assert(e < new.len());
    }
    lemma_closed_marking_holds_active(new, outputs, marked, p);
}

/// The four boolean node functions: AND, OR, NAND, NOR.
pub open spec fn bool_fn(function_id: usize, a: bool, b: bool) -> bool {
    if function_id == 0 {
        a && b
    } else if function_id == 1 {
        a || b
    } else if function_id == 2 {
        !(a && b)
    } else {
        !(a || b)
    }
}

/// The value at position `v` for one sample, following connections at most
/// `fuel` nodes deep.
pub open spec fn node_value(genes: Seq<Gene>, row: Seq<bool>, v: int, fuel: nat) -> bool
    decreases fuel,
{
    if fuel == 0 || v < 0 || v >= genes.len() {
        true
    } else {
        let g = genes[v];
        match g.node_type {
            NodeType::InputNode => row[v],
            NodeType::OutputNode => node_value(genes, row, g.connection1 as int, (fuel - 1) as nat),
            NodeType::ComputationalNode => {
                let first = node_value(genes, row, g.connection1 as int, (fuel - 1) as nat);
                let second = if g.binary {
                    node_value(genes, row, g.connection2 as int, (fuel - 1) as nat)
                } else {
                    first
                };
                bool_fn(g.function_id, first, second)
            },
        }
    }
}

/// The value of the `k`-th node of an evaluation order is the same at every
/// depth beyond `k`.
pub proof fn lemma_value_settles(
    genes: Seq<Gene>,
    row: Seq<bool>,
    order: Seq<usize>,
    k: int,
    fuel1: nat,
    fuel2: nat,
)
    requires
        is_evaluation_order(genes, order),
        0 <= k < order.len(),
        fuel1 > k,
        fuel2 > k,
    ensures
        node_value(genes, row, order[k] as int, fuel1) == node_value(genes, row, order[k] as int, fuel2),
    decreases k,
{
    let v = order[k] as int;
    let g = genes[v];
    let deps = dep_graph(genes)[v];
    assert(deps == gene_deps(g));
    match g.node_type {
        NodeType::InputNode => {},
        NodeType::OutputNode => {
            assert(placed_before(order, k, deps[0]));
            let j = choose|j: int| 0 <= j < k && j < order.len() && order[j] == deps[0];
            lemma_value_settles(genes, row, order, j, (fuel1 - 1) as nat, (fuel2 - 1) as nat);
        },
        NodeType::ComputationalNode => {
            assert(placed_before(order, k, deps[0]));
            let j = choose|j: int| 0 <= j < k && j < order.len() && order[j] == deps[0];
            lemma_value_settles(genes, row, order, j, (fuel1 - 1) as nat, (fuel2 - 1) as nat);
            if g.binary {
                assert(placed_before(order, k, deps[1]));
                let j2 = choose|j: int| 0 <= j < k && j < order.len() && order[j] == deps[1];
                lemma_value_settles(genes, row, order, j2, (fuel1 - 1) as nat, (fuel2 - 1) as nat);
            }
        },
    }
}

/// The value at position `v` for one sample.
pub open spec fn value_at(genes: Seq<Gene>, row: Seq<bool>, v: int) -> bool {
    node_value(genes, row, v, genes.len())
}

/// Inputs are read from the sample and functions are among the four known.
pub open spec fn evaluable(genes: Seq<Gene>, inputs: Seq<Seq<bool>>) -> bool {
    &&& forall|v: int, r: int|
        0 <= v < genes.len() && (#[trigger] genes[v]).node_type == NodeType::InputNode && 0 <= r
            < inputs.len() ==> v < (#[trigger] inputs[r]).len()
    &&& forall|v: int|
        0 <= v < genes.len() && (#[trigger] genes[v]).node_type == NodeType::ComputationalNode
            ==> genes[v].function_id < 4
}

/// Applies one of the four boolean functions.
pub fn apply_bool_fn(function_id: usize, a: bool, b: bool) -> (r: bool)
    ensures
        r == bool_fn(function_id, a, b),
{
    if function_id == 0 {
        a && b
    } else if function_id == 1 {
        a || b
    } else if function_id == 2 {
        !(a && b)
    } else {
        !(a || b)
    }
}

} // verus!
