//! Dependency edges between node positions, with a reachability test that
//! keeps the recorded graph free of cycles.

use vstd::prelude::*;
use crate::utils::marking::{count_false, lemma_count_false_set};

verus! {

/// `g[a]` lists the positions that position `a` depends on.
pub open spec fn has_edge(g: Seq<Seq<usize>>, a: int, b: int) -> bool {
    0 <= a < g.len() && exists|k: int| 0 <= k < g[a].len() && #[trigger] g[a][k] == b
}

/// `p` walks along recorded edges.
pub open spec fn is_walk(g: Seq<Seq<usize>>, p: Seq<int>) -> bool {
    &&& p.len() >= 1
    &&& forall|i: int| 0 <= i < p.len() - 1 ==> has_edge(g, #[trigger] p[i], p[i + 1])
}

/// Some walk of at least one edge leads from `a` to `b`.
pub open spec fn reaches(g: Seq<Seq<usize>>, a: int, b: int) -> bool {
    exists|p: Seq<int>| is_walk(g, p) && p.len() >= 2 && p[0] == a && #[trigger] p.last() == b
}

/// No position reaches itself.
pub open spec fn acyclic(g: Seq<Seq<usize>>) -> bool {
    forall|v: int| !#[trigger] reaches(g, v, v)
}

/// Every recorded target is a position of the graph.
pub open spec fn targets_in_range(g: Seq<Seq<usize>>) -> bool {
    forall|a: int, k: int| 0 <= a < g.len() && 0 <= k < g[a].len() ==> (#[trigger] g[a][k]) < g.len()
}

/// One more edge extends a walk.
pub proof fn lemma_reaches_step(g: Seq<Seq<usize>>, a: int, b: int, c: int)
    requires
        reaches(g, a, b),
        has_edge(g, b, c),
    ensures
        reaches(g, a, c),
{
    let p = choose|p: Seq<int>| is_walk(g, p) && p.len() >= 2 && p[0] == a && #[trigger] p.last() == b;
    let q = p.push(c);
    assert forall|i: int| 0 <= i < q.len() - 1 implies has_edge(g, #[trigger] q[i], q[i + 1]) by {
        if i < p.len() - 1 {
            assert(has_edge(g, p[i], p[i + 1]));
        }
    }
    assert(q.last() == c);
}

/// One edge is a walk.
pub proof fn lemma_reaches_edge(g: Seq<Seq<usize>>, a: int, b: int)
    requires
        has_edge(g, a, b),
    ensures
        reaches(g, a, b),
{
    let q = seq![a, b];
    assert(is_walk(g, q));
    assert(q.last() == b);
}

/// Walks can be joined.
pub proof fn lemma_reaches_transitive(g: Seq<Seq<usize>>, a: int, b: int, c: int)
    requires
        reaches(g, a, b),
        reaches(g, b, c),
    ensures
        reaches(g, a, c),
{
    let p = choose|p: Seq<int>| is_walk(g, p) && p.len() >= 2 && p[0] == a && #[trigger] p.last() == b;
    let q = choose|q: Seq<int>| is_walk(g, q) && q.len() >= 2 && q[0] == b && #[trigger] q.last() == c;
    let w = p + q.drop_first();
    assert forall|i: int| 0 <= i < w.len() - 1 implies has_edge(g, #[trigger] w[i], w[i + 1]) by {
        if i < p.len() - 1 {
            assert(has_edge(g, p[i], p[i + 1]));
        } else {
            let j = i - p.len() + 1;
            assert(has_edge(g, q[j], q[j + 1]));
            assert(w[i + 1] == q[j + 1]);
            if i == p.len() - 1 {
                assert(w[i] == p.last());
            } else {
                assert(w[i] == q[j]);
            }
        }
    }
    assert(w.last() == c);
    assert(w[0] == a);
}

/// `x` reaches, or is, `v`, from where the added edge leads to `c`, which
/// reaches, or is, `y`.
pub open spec fn goes_through(g: Seq<Seq<usize>>, x: int, y: int, v: int, c: int) -> bool {
    (x == v || reaches(g, x, v)) && (c == y || reaches(g, c, y))
}

/// A walk in a graph with one more edge, from `v` to `c`, is a walk in the
/// graph without it or goes through `v` and `c`.
pub proof fn lemma_walk_with_added_edge(
    g: Seq<Seq<usize>>,
    more: Seq<Seq<usize>>,
    v: int,
    c: int,
    p: Seq<int>,
    i: int,
)
    requires
        forall|x: int, y: int| has_edge(more, x, y) ==> has_edge(g, x, y) || (x == v && y == c),
        c != v,
        !reaches(g, c, v),
        is_walk(more, p),
        1 <= i < p.len(),
    ensures
        reaches(g, p[0], p[i]) || goes_through(g, p[0], p[i], v, c),
    decreases i,
{
    let x = p[0];
    let z = p[i - 1];
    let y = p[i];
    assert(has_edge(more, z, y));
    if i == 1 {
        if has_edge(g, z, y) {
            lemma_reaches_edge(g, z, y);
        }
    } else {
        lemma_walk_with_added_edge(g, more, v, c, p, i - 1);
        if has_edge(g, z, y) {
            if reaches(g, x, z) {
                lemma_reaches_step(g, x, z, y);
            } else {
                if c == z {
                    lemma_reaches_edge(g, c, y);
                } else {
                    lemma_reaches_step(g, c, z, y);
                }
            }
        } else {
            assert(z == v && y == c);
            if !reaches(g, x, z) {
                assert(goes_through(g, x, z, v, c));
                assert(c == z || reaches(g, c, z));
                assert(false);
            }
        }
    }
}

/// An edge from `v` to a position that does not reach `v` closes no cycle.
pub proof fn lemma_add_edge_acyclic(g: Seq<Seq<usize>>, more: Seq<Seq<usize>>, v: int, c: int)
    requires
        acyclic(g),
        forall|x: int, y: int| has_edge(more, x, y) ==> has_edge(g, x, y) || (x == v && y == c),
        c != v,
        !reaches(g, c, v),
    ensures
        acyclic(more),
{
    assert forall|x: int| !#[trigger] reaches(more, x, x) by {
        if reaches(more, x, x) {
            let p = choose|p: Seq<int>| is_walk(more, p) && p.len() >= 2 && p[0] == x && #[trigger] p.last() == x;
            lemma_walk_with_added_edge(g, more, v, c, p, p.len() - 1);
            assert(!reaches(g, x, x));
            assert(goes_through(g, x, x, v, c));
            if x == v {
                assert(reaches(g, c, v));
            } else if c == x {
                assert(reaches(g, c, v));
            } else {
                lemma_reaches_transitive(g, c, x, v);
            }
        }
    }
}

/// Along a walk through edges that point to smaller positions, positions fall.
pub proof fn lemma_backward_walk_falls(g: Seq<Seq<usize>>, p: Seq<int>, i: int)
    requires
        forall|a: int, k: int| 0 <= a < g.len() && 0 <= k < g[a].len() ==> (#[trigger] g[a][k]) < a,
        is_walk(g, p),
        1 <= i < p.len(),
    ensures
        p[i] < p[0],
    decreases i,
{
    assert(has_edge(g, p[i - 1], p[i]));
    if i > 1 {
        lemma_backward_walk_falls(g, p, i - 1);
    }
}

/// A graph whose edges all point to smaller positions has no cycle.
pub proof fn lemma_backward_acyclic(g: Seq<Seq<usize>>)
    requires
        forall|a: int, k: int| 0 <= a < g.len() && 0 <= k < g[a].len() ==> (#[trigger] g[a][k]) < a,
    ensures
        acyclic(g),
{
    assert forall|x: int| !#[trigger] reaches(g, x, x) by {
        if reaches(g, x, x) {
            let p = choose|p: Seq<int>| is_walk(g, p) && p.len() >= 2 && p[0] == x && #[trigger] p.last() == x;
            lemma_backward_walk_falls(g, p, p.len() - 1);
        }
    }
}

/// A set of positions that holds the direct targets of `a` and is closed under
/// edges holds every position that `a` reaches.
pub proof fn lemma_closed_holds_reached(g: Seq<Seq<usize>>, a: int, marked: Seq<bool>, p: Seq<int>, i: int)
    requires
        marked.len() == g.len(),
        targets_in_range(g),
        forall|k: int| 0 <= a < g.len() && 0 <= k < g[a].len() ==> marked[(#[trigger] g[a][k]) as int],
        forall|u: int, k: int|
            0 <= u < g.len() && marked[u] && 0 <= k < g[u].len() ==> marked[(#[trigger] g[u][k]) as int],
        is_walk(g, p),
        p[0] == a,
        1 <= i < p.len(),
    ensures
        0 <= p[i] < g.len(),
        marked[p[i]],
    decreases i,
{
    assert(has_edge(g, p[i - 1], p[i]));
    let k = choose|k: int| 0 <= k < g[p[i - 1]].len() && #[trigger] g[p[i - 1]][k] == p[i];
    if i > 1 {
        lemma_closed_holds_reached(g, a, marked, p, i - 1);
    }
}

/// The dependencies of a graph: for every position the positions it reads.
pub struct CGPEdges {
    edges: Vec<Vec<usize>>,
}

impl View for CGPEdges {
    type V = Seq<Seq<usize>>;

    closed spec fn view(&self) -> Seq<Seq<usize>> {
        Seq::new(self.edges@.len(), |i: int| self.edges@[i]@)
    }
}

impl Clone for CGPEdges {
    fn clone(&self) -> (r: Self)
        ensures
            r@ == self@,
    {
        let mut edges: Vec<Vec<usize>> = Vec::with_capacity(self.edges.len());
        let mut i: usize = 0;
        while i < self.edges.len()
            invariant
                i <= self.edges@.len(),
                edges@.len() == i,
                forall|a: int| 0 <= a < i ==> (#[trigger] edges@[a])@ == self.edges@[a]@,
            decreases self.edges@.len() - i,
        {
            let row = self.edges[i].clone();
            assert(row@ =~= self.edges@[i as int]@);
            edges.push(row);
            i += 1;
        }
        let r = Self { edges };
        assert(r@ =~= self@);
        r
    }
}

impl CGPEdges {
    /// Every recorded target is a position of the graph.
    pub open spec fn wf(&self) -> bool {
        targets_in_range(self@)
    }

    /// The number of positions.
    pub fn len(&self) -> (n: usize)
        ensures
            n == self@.len(),
    {
        self.edges.len()
    }

    /// The number of dependencies recorded for `node_id`.
    pub fn count(&self, node_id: usize) -> (n: usize)
        requires
            node_id < self@.len(),
        ensures
            n == self@[node_id as int].len(),
    {
        self.edges[node_id].len()
    }

    /// The `k`-th dependency recorded for `node_id`.
    pub fn target(&self, node_id: usize, k: usize) -> (t: usize)
        requires
            node_id < self@.len(),
            k < self@[node_id as int].len(),
        ensures
            t == self@[node_id as int][k as int],
    {
        self.edges[node_id][k]
    }

    /// Whether every recorded target is a position of the graph.
    pub fn check_targets(&self) -> (b: bool)
        ensures
            b == self.wf(),
    {
        let n = self.edges.len();
        let mut a: usize = 0;
        while a < n
            invariant
                n == self@.len(),
                a <= n,
                forall|x: int, k: int|
                    0 <= x < a && 0 <= k < self@[x].len() ==> (#[trigger] self@[x][k]) < n,
            decreases n - a,
        {
            let mut k: usize = 0;
            while k < self.edges[a].len()
                invariant
                    n == self@.len(),
                    a < n,
                    k <= self@[a as int].len(),
                    forall|x: int, j: int|
                        0 <= x < a && 0 <= j < self@[x].len() ==> (#[trigger] self@[x][j]) < n,
                    forall|j: int| 0 <= j < k ==> (#[trigger] self@[a as int][j]) < n,
                decreases self@[a as int].len() - k,
            {
                if self.edges[a][k] >= n {
                    assert(self@[a as int][k as int] >= n);
                    return false;
                }
                k += 1;
            }
            a += 1;
        }
        true
    }

    /// A graph of `nbr_nodes` positions without edges.
    pub fn new(nbr_nodes: usize) -> (r: Self)
        ensures
            r@.len() == nbr_nodes,
            forall|a: int| 0 <= a < nbr_nodes ==> (#[trigger] r@[a]).len() == 0,
            r.wf(),
    {
        let mut edges: Vec<Vec<usize>> = Vec::new();
        let mut i: usize = 0;
        while i < nbr_nodes
            invariant
                i <= nbr_nodes,
                edges@.len() == i,
                forall|a: int| 0 <= a < i ==> (#[trigger] edges@[a])@.len() == 0,
            decreases nbr_nodes - i,
        {
            edges.push(Vec::with_capacity(32));
            i += 1;
        }
        Self { edges }
    }

    /// Records that `node_id` depends on `prev_node_id`.
    pub fn add_edge(&mut self, node_id: usize, prev_node_id: usize)
        requires
            node_id < old(self)@.len(),
        ensures
            final(self)@ == old(self)@.update(node_id as int, old(self)@[node_id as int].push(prev_node_id)),
    {
        self.edges[node_id].push(prev_node_id);
        assert(self@ =~= old(self)@.update(node_id as int, old(self)@[node_id as int].push(prev_node_id)));
    }

    /// Forgets the first recorded dependency of `node_id` on `prev_node_id`.
    pub fn remove_edge(&mut self, node_id: usize, prev_node_id: usize)
        requires
            node_id < old(self)@.len(),
            old(self)@[node_id as int].contains(prev_node_id),
        ensures
            final(self)@ == old(self)@.update(
                node_id as int,
                old(self)@[node_id as int].remove(
                    old(self)@[node_id as int].index_of_first(prev_node_id).unwrap(),
                ),
            ),
    {
        proof {
            self@[node_id as int].index_of_first_ensures(prev_node_id);
        }
        let ghost first = self@[node_id as int].index_of_first(prev_node_id).unwrap();
        let mut index: usize = 0;
        while self.edges[node_id][index] != prev_node_id
            invariant
                node_id < self.edges@.len(),
                0 <= first < self.edges@[node_id as int].len(),
                self.edges@[node_id as int]@[first] == prev_node_id,
                index <= first,
            decreases first - index,
        {
            assert(index != first);
            index += 1;
        }
        self.edges[node_id].remove(index);
        assert(self@ =~= old(self)@.update(
            node_id as int,
            old(self)@[node_id as int].remove(first),
        ));
    }

    /// Whether `prev_node_id` reaches `node_id` along recorded dependencies, which
    /// is when a dependency of `node_id` on `prev_node_id` would close a cycle.
    pub fn check_cycle(&mut self, node_id: usize, prev_node_id: usize) -> (b: bool)
        requires
            old(self).wf(),
            prev_node_id < old(self)@.len(),
        ensures
            *final(self) == *old(self),
            b == reaches(old(self)@, prev_node_id as int, node_id as int),
    {
        let n = self.edges.len();
        let ghost g = self@;
        let mut to_check: Vec<usize> = Vec::with_capacity(64);
        let mut checked: Vec<bool> = vec![false; n];
        let ghost mut done: Set<int> = Set::empty();

        let mut k: usize = 0;
        while k < self.edges[prev_node_id as usize].len()
            invariant
                *self == *old(self),
                self@ == g,
                g.len() == n,
                targets_in_range(g),
                prev_node_id < n,
                checked@.len() == n,
                k <= g[prev_node_id as int].len(),
                forall|i: int| 0 <= i < to_check@.len() ==> (#[trigger] to_check@[i]) < n && checked@[to_check@[i] as int],
                forall|v: int| 0 <= v < n && #[trigger] checked@[v] ==> reaches(g, prev_node_id as int, v),
                forall|v: int| 0 <= v < n && #[trigger] checked@[v] ==> to_check@.contains(v as usize),
                forall|i: int| 0 <= i < k ==> checked@[(#[trigger] g[prev_node_id as int][i]) as int],
            decreases g[prev_node_id as int].len() - k,
        {
            let target = self.edges[prev_node_id][k];
            assert(target == g[prev_node_id as int][k as int]);
            proof {
                lemma_reaches_edge(g, prev_node_id as int, target as int);
            }
            let ghost before = to_check@;
            to_check.push(target);
            checked[target] = true;
            assert forall|v: int| 0 <= v < n && #[trigger] checked@[v] implies to_check@.contains(v as usize) by {
                if v == target {
                    assert(to_check@[before.len() as int] == target);
                } else {
                    let i = choose|i: int| 0 <= i < before.len() && before[i] == v as usize;
                    assert(to_check@[i] == v as usize);
                }
            }
            k += 1;
        }

        while to_check.len() > 0
            invariant
                *self == *old(self),
                self@ == g,
                g.len() == n,
                targets_in_range(g),
                prev_node_id < n,
                checked@.len() == n,
                forall|i: int| 0 <= i < to_check@.len() ==> (#[trigger] to_check@[i]) < n && checked@[to_check@[i] as int],
                forall|v: int| 0 <= v < n && #[trigger] checked@[v] ==> reaches(g, prev_node_id as int, v),
                forall|v: int| 0 <= v < n && #[trigger] checked@[v] ==> done.contains(v) || to_check@.contains(v as usize),
                forall|v: int| #[trigger] done.contains(v) ==> 0 <= v < n && v != node_id,
                forall|v: int, i: int| done.contains(v) && 0 <= i < g[v].len() ==> checked@[(#[trigger] g[v][i]) as int],
                forall|i: int| 0 <= i < g[prev_node_id as int].len() ==> checked@[(#[trigger] g[prev_node_id as int][i]) as int],
            decreases 2 * count_false(checked@) + to_check@.len(),
        {
            let ghost stack_before = to_check@;
            let ghost measure = 2 * count_false(checked@) + to_check@.len();
            let checking = to_check.pop().unwrap();
            if checking == node_id {
                return true;
            }
            assert forall|v: int| 0 <= v < n && #[trigger] checked@[v] implies v == checking
                || done.contains(v) || to_check@.contains(v as usize) by {
                if !done.contains(v) {
                    let i = choose|i: int| 0 <= i < stack_before.len() && stack_before[i] == v as usize;
                    if i < stack_before.len() - 1 {
                        assert(to_check@[i] == v as usize);
                    }
                }
            }
            let mut j: usize = 0;
            while j < self.edges[checking].len()
                invariant
                    *self == *old(self),
                    self@ == g,
                    g.len() == n,
                    targets_in_range(g),
                    prev_node_id < n,
                    checking < n,
                    checking != node_id,
                    checked@.len() == n,
                    checked@[checking as int],
                    reaches(g, prev_node_id as int, checking as int),
                    j <= g[checking as int].len(),
                    forall|i: int| 0 <= i < to_check@.len() ==> (#[trigger] to_check@[i]) < n && checked@[to_check@[i] as int],
                    forall|v: int| 0 <= v < n && #[trigger] checked@[v] ==> reaches(g, prev_node_id as int, v),
                    forall|v: int|
                        0 <= v < n && #[trigger] checked@[v] ==> v == checking || done.contains(v)
                            || to_check@.contains(v as usize),
                    forall|v: int| #[trigger] done.contains(v) ==> 0 <= v < n && v != node_id,
                    forall|v: int, i: int| done.contains(v) && 0 <= i < g[v].len() ==> checked@[(#[trigger] g[v][i]) as int],
                    forall|i: int| 0 <= i < g[prev_node_id as int].len() ==> checked@[(#[trigger] g[prev_node_id as int][i]) as int],
                    forall|i: int| 0 <= i < j ==> checked@[(#[trigger] g[checking as int][i]) as int],
                    2 * count_false(checked@) + to_check@.len() + 1 <= measure,
                decreases g[checking as int].len() - j,
            {
                let new_edge = self.edges[checking][j];
                assert(new_edge == g[checking as int][j as int]);
                if !checked[new_edge] {
                    proof {
                        lemma_reaches_step(g, prev_node_id as int, checking as int, new_edge as int);
                        lemma_count_false_set(checked@, new_edge as int);
                    }
                    let ghost before = to_check@;
                    to_check.push(new_edge);
                    checked[new_edge] = true;
                    assert forall|v: int| 0 <= v < n && #[trigger] checked@[v] implies v == checking
                        || done.contains(v) || to_check@.contains(v as usize) by {
                        if v == new_edge {
                            assert(to_check@[before.len() as int] == new_edge);
                        } else if v != checking && !done.contains(v) {
                            let i = choose|i: int| 0 <= i < before.len() && before[i] == v as usize;
                            assert(to_check@[i] == v as usize);
                        }
                    }
                }
                j += 1;
            }
            proof {
                done = done.insert(checking as int);
            }
        }
        proof {
            if reaches(g, prev_node_id as int, node_id as int) {
                let p = choose|p: Seq<int>|
                    is_walk(g, p) && p.len() >= 2 && p[0] == prev_node_id as int && #[trigger] p.last()
                        == node_id as int;
                lemma_closed_holds_reached(g, prev_node_id as int, checked@, p, p.len() - 1);
                assert(done.contains(node_id as int));
            }
        }
        false
    }
}

} // verus!
