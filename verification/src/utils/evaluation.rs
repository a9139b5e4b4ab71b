//! Evaluation of a boolean graph on a matrix of samples.

use vstd::prelude::*;
use crate::utils::fitness_metrics::{bits_in_rows, count_matches, fitness_boolean, rows};
use crate::utils::graph::{
    apply_bool_fn, dep_graph, evaluable, gene_deps, genes, is_evaluation_order, lemma_value_settles,
    placed_before, value_at, Gene, GraphNode,
};
use crate::utils::node_type::NodeType;

verus! {

/// The values of the `nbr_outputs` positions from `first_output` on, one row
/// per sample.
pub open spec fn output_values(genes: Seq<Gene>, first_output: int, nbr_outputs: int, inputs: Seq<Seq<bool>>) -> Seq<
    Seq<bool>,
> {
    Seq::new(
        inputs.len(),
        |r: int| Seq::new(nbr_outputs as nat, |c: int| value_at(genes, inputs[r], first_output + c)),
    )
}

/// Distinct numbers below `n` are at most `n`.
pub proof fn lemma_distinct_below(s: Seq<usize>, n: nat)
    requires
        forall|i: int| 0 <= i < s.len() ==> (#[trigger] s[i]) < n,
        forall|i: int, j: int| 0 <= i < j < s.len() ==> s[i] != s[j],
    ensures
        s.len() <= n,
    decreases n,
{
    if s.len() > 0 {
        if n == 0 {
            assert(s[0] < n);
        } else {
            let top = (n - 1) as nat;
            if exists|i: int| 0 <= i < s.len() && s[i] == top {
                let i = choose|i: int| 0 <= i < s.len() && s[i] == top;
                let t = s.remove(i);
                assert forall|k: int| 0 <= k < t.len() implies (#[trigger] t[k]) < top by {
                    if k < i {
                        assert(t[k] == s[k]);
                        assert(s[k] != s[i]);
                    } else {
                        assert(t[k] == s[k + 1]);
                        assert(s[i] != s[k + 1]);
                    }
                }
                assert forall|a: int, b: int| 0 <= a < b < t.len() implies t[a] != t[b] by {
                    let a2 = if a < i { a } else { a + 1 };
                    let b2 = if b < i { b } else { b + 1 };
                    assert(t[a] == s[a2] && t[b] == s[b2]);
                }
                lemma_distinct_below(t, top);
            } else {
                assert forall|k: int| 0 <= k < s.len() implies (#[trigger] s[k]) < top by {
                    assert(s[k] < n);
                }
                lemma_distinct_below(s, top);
            }
        }
    }
}

/// A column that holds `value` in each of `len` rows.
pub fn filled(value: bool, len: usize) -> (r: Vec<bool>)
    ensures
        r@.len() == len,
        forall|i: int| 0 <= i < len ==> r@[i] == value,
{
    let mut r: Vec<bool> = Vec::new();
    let mut i: usize = 0;
    while i < len
        invariant
            i <= len,
            r@.len() == i,
            forall|k: int| 0 <= k < i ==> r@[k] == value,
        decreases len - i,
    {
        r.push(value);
        i += 1;
    }
    r
}

/// Evaluates the nodes of `order`, in that order, on every sample: the result
/// holds one column per position, with the node's value for each sample where
/// the position stands in `order`, and `true` elsewhere.
pub fn evaluate_in_order<N: GraphNode>(nodes: &Vec<N>, order: &Vec<usize>, inputs: &Vec<Vec<bool>>) -> (table:
    Vec<Vec<bool>>)
    requires
        is_evaluation_order(genes(nodes@), order@),
        evaluable(genes(nodes@), rows(inputs@)),
    ensures
        table@.len() == nodes@.len(),
        forall|v: int| 0 <= v < nodes@.len() ==> (#[trigger] table@[v])@.len() == inputs@.len(),
        forall|k: int, r: int|
            0 <= k < order@.len() && 0 <= r < inputs@.len() ==> (#[trigger] table@[order@[k] as int])@[r]
                == value_at(genes(nodes@), #[trigger] inputs@[r]@, order@[k] as int),
        forall|v: int, r: int|
            0 <= v < nodes@.len() && !order@.contains(v as usize) && 0 <= r < inputs@.len()
                ==> #[trigger] table@[v]@[r],
{
    let n = nodes.len();
    let nbr_rows = inputs.len();
    let ghost gs = genes(nodes@);
    proof {
        lemma_distinct_below(order@, n as nat);
    }
    let mut table: Vec<Vec<bool>> = Vec::new();
    let mut v: usize = 0;
    while v < n
        invariant
            v <= n,
            nbr_rows == inputs@.len(),
            table@.len() == v,
            forall|u: int| 0 <= u < v ==> (#[trigger] table@[u])@.len() == nbr_rows,
            forall|u: int, r: int| 0 <= u < v && 0 <= r < nbr_rows ==> #[trigger] table@[u]@[r],
        decreases n - v,
    {
        table.push(filled(true, nbr_rows));
        v += 1;
    }

    let mut k: usize = 0;
    while k < order.len()
        invariant
            n == nodes@.len(),
            nbr_rows == inputs@.len(),
            gs == genes(nodes@),
            is_evaluation_order(gs, order@),
            evaluable(gs, rows(inputs@)),
            order@.len() <= n,
            k <= order@.len(),
            table@.len() == n,
            forall|u: int| 0 <= u < n ==> (#[trigger] table@[u])@.len() == nbr_rows,
            forall|j: int, r: int|
                0 <= j < k && 0 <= r < nbr_rows ==> (#[trigger] table@[order@[j] as int])@[r] == value_at(
                    gs,
                    #[trigger] inputs@[r]@,
                    order@[j] as int,
                ),
            forall|u: int, r: int|
                0 <= u < n && !placed_before(order@, k as int, u as usize) && 0 <= r < nbr_rows
                    ==> #[trigger] table@[u]@[r],
        decreases order@.len() - k,
    {
        let position = order[k];
        let gene = nodes[position].to_gene();
        let ghost deps = dep_graph(gs)[position as int];
        assert(gene == gs[position as int]);
        assert(deps == gene_deps(gene));
        let mut column: Vec<bool> = Vec::with_capacity(nbr_rows);
        let mut r: usize = 0;
        while r < nbr_rows
            invariant
                n == nodes@.len(),
                nbr_rows == inputs@.len(),
                gs == genes(nodes@),
                is_evaluation_order(gs, order@),
                evaluable(gs, rows(inputs@)),
                order@.len() <= n,
                k < order@.len(),
                position == order@[k as int],
                position < n,
                gene == gs[position as int],
                deps == dep_graph(gs)[position as int],
                deps == gene_deps(gene),
                table@.len() == n,
                forall|u: int| 0 <= u < n ==> (#[trigger] table@[u])@.len() == nbr_rows,
                forall|j: int, r: int|
                    0 <= j < k && 0 <= r < nbr_rows ==> (#[trigger] table@[order@[j] as int])@[r] == value_at(
                        gs,
                        #[trigger] inputs@[r]@,
                        order@[j] as int,
                    ),
                r <= nbr_rows,
                column@.len() == r,
                forall|q: int| 0 <= q < r ==> column@[q] == value_at(gs, #[trigger] inputs@[q]@, position as int),
            decreases nbr_rows - r,
        {
            let ghost row = inputs@[r as int]@;
            let value = match gene.node_type {
                NodeType::InputNode => {
                    assert(rows(inputs@)[r as int] == row);
                    inputs[r][position]
                },
                NodeType::OutputNode => {
                    proof {
                        assert(placed_before(order@, k as int, deps[0]));
                        let j = choose|j: int| 0 <= j < k && j < order@.len() && order@[j] == deps[0];
                        lemma_value_settles(gs, row, order@, j, n as nat, (n - 1) as nat);
                    }
                    table[gene.connection1][r]
                },
                NodeType::ComputationalNode => {
                    proof {
                        assert(placed_before(order@, k as int, deps[0]));
                        let j = choose|j: int| 0 <= j < k && j < order@.len() && order@[j] == deps[0];
                        lemma_value_settles(gs, row, order@, j, n as nat, (n - 1) as nat);
                    }
                    let first = table[gene.connection1][r];
                    let second = if gene.binary {
                        proof {
                            assert(placed_before(order@, k as int, deps[1]));
                            let j = choose|j: int| 0 <= j < k && j < order@.len() && order@[j] == deps[1];
                            lemma_value_settles(gs, row, order@, j, n as nat, (n - 1) as nat);
                        }
                        table[gene.connection2][r]
                    } else {
                        first
                    };
                    apply_bool_fn(gene.function_id, first, second)
                },
            };
            column.push(value);
            r += 1;
        }
        table[position] = column;
        proof {
            assert forall|u: int, r: int|
                0 <= u < n && !placed_before(order@, k + 1, u as usize) && 0 <= r < nbr_rows implies #[trigger] table@[u]@[r] by {
                if placed_before(order@, k as int, u as usize) {
                    let j = choose|j: int| 0 <= j < k && j < order@.len() && order@[j] == u as usize;
                    assert(0 <= j < k + 1);
                }
                if u == position {
                    assert(0 <= k < k + 1 && order@[k as int] == u as usize);
                }
            }
        }
        k += 1;
    }
    proof {
        assert forall|v: int, r: int|
            0 <= v < n && !order@.contains(v as usize) && 0 <= r < nbr_rows implies #[trigger] table@[v]@[r] by {
            if placed_before(order@, k as int, v as usize) {
                let j = choose|j: int| 0 <= j < k && j < order@.len() && order@[j] == v as usize;
                assert(order@[j] == v as usize);
            }
        }
    }
    table
}

/// Reads the columns of the outputs out of an evaluation table, one row per
/// sample.
pub fn collect_outputs(table: &Vec<Vec<bool>>, first_output: usize, nbr_outputs: usize, nbr_rows: usize) -> (outs:
    Vec<Vec<bool>>)
    requires
        first_output + nbr_outputs <= table@.len(),
        forall|v: int| 0 <= v < table@.len() ==> (#[trigger] table@[v])@.len() == nbr_rows,
    ensures
        outs@.len() == nbr_rows,
        forall|r: int| 0 <= r < nbr_rows ==> (#[trigger] outs@[r])@.len() == nbr_outputs,
        forall|r: int, c: int|
            0 <= r < nbr_rows && 0 <= c < nbr_outputs ==> #[trigger] outs@[r]@[c] == table@[first_output + c]@[r],
{
    let mut outs: Vec<Vec<bool>> = Vec::with_capacity(nbr_rows);
    let mut r: usize = 0;
    while r < nbr_rows
        invariant
            first_output + nbr_outputs <= table.len(),
            forall|v: int| 0 <= v < table@.len() ==> (#[trigger] table@[v])@.len() == nbr_rows,
            r <= nbr_rows,
            outs@.len() == r,
            forall|q: int| 0 <= q < r ==> (#[trigger] outs@[q])@.len() == nbr_outputs,
            forall|q: int, c: int|
                0 <= q < r && 0 <= c < nbr_outputs ==> #[trigger] outs@[q]@[c] == table@[first_output + c]@[q],
        decreases nbr_rows - r,
    {
        let mut row: Vec<bool> = Vec::with_capacity(nbr_outputs);
        let mut c: usize = 0;
        while c < nbr_outputs
            invariant
                first_output + nbr_outputs <= table.len(),
                forall|v: int| 0 <= v < table@.len() ==> (#[trigger] table@[v])@.len() == nbr_rows,
                r < nbr_rows,
                c <= nbr_outputs,
                row@.len() == c,
                forall|d: int| 0 <= d < c ==> row@[d] == table@[first_output + d]@[r as int],
            decreases nbr_outputs - c,
        {
            row.push(table[first_output + c][r]);
            c += 1;
        }
        outs.push(row);
        r += 1;
    }
    outs
}

/// A matrix of rows of `width` bits holds `width` bits per row.
pub proof fn lemma_bits_of_matrix(m: Seq<Seq<bool>>, width: nat, r: nat)
    requires
        r <= m.len(),
        forall|q: int| 0 <= q < m.len() ==> (#[trigger] m[q]).len() == width,
    ensures
        bits_in_rows(m, r) == r * width,
    decreases r,
{
    if r > 0 {
        lemma_bits_of_matrix(m, width, (r - 1) as nat);
        assert(m[r - 1].len() == width);
        assert((r - 1) * width + width == r * width) by (nonlinear_arith);
    } else {
        assert(r * width == 0) by (nonlinear_arith)
            requires
                r == 0,
        ;
    }
}

/// Evaluates the nodes of `order` on every sample of `inputs` and counts the
/// bits in which the `nbr_outputs` positions from `first_output` on agree
/// with `labels`.
pub fn evaluate_outputs<N: GraphNode>(
    nodes: &Vec<N>,
    order: &Vec<usize>,
    first_output: usize,
    nbr_outputs: usize,
    inputs: &Vec<Vec<bool>>,
    labels: &Vec<Vec<bool>>,
) -> (matches: usize)
    requires
        is_evaluation_order(genes(nodes@), order@),
        evaluable(genes(nodes@), rows(inputs@)),
        first_output + nbr_outputs <= nodes@.len(),
        forall|o: usize| first_output <= o < first_output + nbr_outputs ==> order@.contains(o),
        labels@.len() == inputs@.len(),
        forall|r: int| 0 <= r < labels@.len() ==> (#[trigger] labels@[r])@.len() == nbr_outputs,
        inputs@.len() * nbr_outputs <= usize::MAX,
    ensures
        matches == count_matches(
            output_values(genes(nodes@), first_output as int, nbr_outputs as int, rows(inputs@)),
            rows(labels@),
        ),
        matches <= inputs@.len() * nbr_outputs,
{
    let ghost gs = genes(nodes@);
    let table = evaluate_in_order(nodes, order, inputs);
    assert(first_output + nbr_outputs <= table.len());
    let outs = collect_outputs(&table, first_output, nbr_outputs, inputs.len());
    proof {
        let expected = output_values(gs, first_output as int, nbr_outputs as int, rows(inputs@));
        assert forall|r: int| 0 <= r < inputs@.len() implies #[trigger] rows(outs@)[r] == expected[r] by {
            assert forall|c: int| 0 <= c < nbr_outputs implies rows(outs@)[r][c] == expected[r][c] by {
                let o = (first_output + c) as usize;
                assert(order@.contains(o));
                let k = choose|k: int| 0 <= k < order@.len() && order@[k] == o;
                assert(table@[order@[k] as int]@[r] == value_at(gs, inputs@[r]@, order@[k] as int));
                assert(outs@[r]@[c] == table@[first_output + c]@[r]);
            }
            assert(rows(outs@)[r] =~= expected[r]);
        }
        assert(rows(outs@) =~= expected);
        lemma_bits_of_matrix(rows(labels@), nbr_outputs as nat, labels@.len());
    }
    fitness_boolean(&outs, labels)
}

} // verus!
