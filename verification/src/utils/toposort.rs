//! Topological order of a graph of positions.

use vstd::prelude::*;
use petgraph::algo::toposort;
use petgraph::graph::NodeIndex;
use petgraph::stable_graph::StableGraph;
use crate::utils::graph::placed_before;

verus! {

/// Both ends of the edge from `a` to `b` remain in the graph, and the edge is
/// listed.
pub open spec fn is_edge(edges: Seq<(usize, usize)>, removed: Seq<usize>, a: usize, b: usize) -> bool {
    &&& !removed.contains(a)
    &&& !removed.contains(b)
    &&& exists|e: int| 0 <= e < edges.len() && #[trigger] edges[e] == (a, b)
}

/// Some walk of at least one edge leads from a position back to it.
pub open spec fn has_cycle(edges: Seq<(usize, usize)>, removed: Seq<usize>) -> bool {
    exists|w: Seq<usize>|
        w.len() >= 2 && #[trigger] w.first() == w.last() && forall|i: int|
            0 <= i < w.len() - 1 ==> is_edge(edges, removed, #[trigger] w[i], w[i + 1])
}

/// `order` lists each remaining position once, the source of every edge before
/// its target.
pub open spec fn is_topological_order(
    n: nat,
    edges: Seq<(usize, usize)>,
    removed: Seq<usize>,
    order: Seq<usize>,
) -> bool {
    &&& forall|i: int, j: int| 0 <= i < j < order.len() ==> order[i] != order[j]
    &&& forall|v: usize| order.contains(v) <==> (v < n && !removed.contains(v))
    &&& forall|e: int, j: int|
        0 <= e < edges.len() && 0 <= j < order.len() && !removed.contains((#[trigger] edges[e]).0)
            && #[trigger] order[j] == edges[e].1 ==> placed_before(order, j, edges[e].0)
}

/// Builds a `petgraph::stable_graph::StableGraph` with the nodes `0..n` and
/// the listed edges, takes the nodes of `removed` out with `remove_node`, and
/// calls `petgraph::algo::toposort` on it. The contract claims what the
/// documentation of `toposort` states: for a graph without a cycle the result
/// lists every node once, each node before its successors; a graph with a
/// cycle gives the error, which is `None` here. The graph indexes nodes and
/// edges with 32 bits and panics beyond, so larger inputs are left out.
#[verifier::external_body]
pub(crate) fn toposort_positions(n: usize, edges: &Vec<(usize, usize)>, removed: &Vec<usize>) -> (r: Option<
    Vec<usize>,
>)
    requires
        n <= 0xffff_ffff,
        edges@.len() <= 0xffff_ffff,
        forall|e: int| 0 <= e < edges@.len() ==> (#[trigger] edges@[e]).0 < n && edges@[e].1 < n,
        forall|i: int| 0 <= i < removed@.len() ==> (#[trigger] removed@[i]) < n,
    ensures
        match r {
            Some(order) => is_topological_order(n as nat, edges@, removed@, order@),
            None => has_cycle(edges@, removed@),
        },
{
    let mut graph = StableGraph::<usize, ()>::new();
    let nodes: Vec<NodeIndex> = (0..n).map(|i| graph.add_node(i)).collect();
    for &(from, to) in edges.iter() {
        graph.add_edge(nodes[from], nodes[to], ());
    }
    for &i in removed.iter() {
        graph.remove_node(nodes[i]);
    }
    toposort(&graph, None).ok().map(|order| order.into_iter().map(|node| node.index()).collect())
}

} // verus!
