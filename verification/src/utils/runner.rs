//! The population of a search: a pool of graphs in the numeric array encoding,
//! its parents, and the statistics of its active nodes. Fitness is computed
//! by the caller and enters as keys, ordered as the fitness values are.

use vstd::prelude::*;
use crate::cgp_es::chromosome::{
    is_mutation_of_each, is_mutation_until_active, one_table_ant_fits, two_table_ant_fits,
    with_one_table_choice, with_two_table_choice, Chromosome,
};
use crate::cgp_es::node::Node;
use crate::cgp_es::node::NBR_BINARY_FUNCTIONS;
use crate::global_params::CgpParameters;
use crate::utils::ant::{spec_two_conn_constant, two_conn_constant};
use crate::utils::graph::{ascending, contains};
use crate::utils::node_type::NodeType;
use crate::utils::random::random_below;
use crate::utils::selection::{
    is_fitness_uniform_choice, is_neutral_choice, is_pool, new_parent_by_neutral_search,
    new_parents_by_fuss, new_random_parents, selection_pool,
};

verus! {

/// The pool of graphs of a search, its parents and its settings.
pub struct Runner {
    pub params: CgpParameters,
    pub chromosomes: Vec<Chromosome>,
    pub parent_ids: Vec<usize>,
    /// 0 to mutate until an active node is hit, 1 to mutate every node with
    /// a chance.
    pub mutation_type: usize,
    /// The chance of a mutation, out of `MUTATION_DRAWS`.
    pub mutation_threshold: u32,
    pub all_active_nodes: Vec<usize>,
    pub two_conn_constant: usize,
    /// 0 for neutral search, 1 for random parents, 2 for fitness-uniform
    /// selection.
    pub elitism_type: usize,
    pub num_active_nodes: Vec<usize>,
}

/// The active nodes of the first `count` graphs, one list after the other.
pub open spec fn active_nodes_of(chromosomes: Seq<Chromosome>, count: nat) -> Seq<usize>
    decreases count,
{
    if count == 0 {
        Seq::empty()
    } else {
        active_nodes_of(chromosomes, (count - 1) as nat) + chromosomes[count - 1].active_nodes->0@
    }
}

/// How many of the first `i` graphs of the pool are no parents.
pub open spec fn children_before(parent_ids: Seq<usize>, i: nat) -> nat
    decreases i,
{
    if i == 0 {
        0
    } else {
        children_before(parent_ids, (i - 1) as nat) + if parent_ids.contains((i - 1) as usize) {
            0nat
        } else {
            1nat
        }
    }
}

/// The parent that graph `i`, which is none, is copied from: the parents take
/// turns in the order of their list.
pub open spec fn parent_in_turn(parent_ids: Seq<usize>, i: int) -> usize {
    parent_ids[(children_before(parent_ids, i as nat) % parent_ids.len()) as int]
}

/// `child` may have come from `parent` by mutation: it is well-formed, and
/// has the parameters, the inputs, the outputs and the cache of the parent.
pub open spec fn is_mutant_of(child: Chromosome, parent: Chromosome) -> bool {
    &&& child.wf()
    &&& child.same_frame(&parent)
    &&& child.nodes_grid@.len() == parent.nodes_grid@.len()
    &&& forall|v: int| 0 <= v < parent.params.nbr_inputs ==> child.nodes_grid@[v] == parent.nodes_grid@[v]
}

/// `child` is what a mutation makes of `parent`. With `mutation_type` 0 nodes
/// were mutated until one of the cached active nodes of `parent` was hit; with
/// 1 every computational node and output was kept or mutated once: kept where
/// `threshold` is 0, mutated where it is `MUTATION_DRAWS` or more.
pub open spec fn is_mutation_of(child: Chromosome, parent: Chromosome, mutation_type: usize, threshold: u32) -> bool {
    &&& is_mutant_of(child, parent)
    &&& if mutation_type == 0 {
        exists|hit: Option<usize>, grids: Seq<Seq<Node>>, draws: Seq<usize>| #[trigger]
            is_mutation_until_active(
                parent.params,
                parent.nodes_grid@,
                child.nodes_grid@,
                parent.active_nodes->0@,
                hit,
                grids,
                draws,
            )
    } else {
        is_mutation_of_each(parent.params, parent.nodes_grid@, child.nodes_grid@, threshold)
    }
}

/// `child` is what a mutation until an active node is hit makes of one of the
/// parents among `pool`.
pub open spec fn is_mutant_of_a_parent(child: Chromosome, pool: Seq<Chromosome>, parent_ids: Seq<usize>) -> bool {
    exists|k: int| 0 <= k < parent_ids.len() && is_mutation_of(child, pool[#[trigger] parent_ids[k] as int], 0, 0)
}

/// The number of choices that row `i` of a table offers to the graph: two
/// connections before the node for a computational node with a function
/// that reads both, one connection before it otherwise.
pub open spec fn spec_choices(chromosome: Chromosome, i: int) -> int {
    let v = chromosome.params.nbr_inputs + i;
    let node = chromosome.nodes_grid@[v];
    if node.node_type != NodeType::OutputNode && node.function_id < NBR_BINARY_FUNCTIONS {
        v * v
    } else {
        v
    }
}

impl Runner {
    /// The pool holds `mu + lambda` well-formed graphs of the parameters of the
    /// search, each with a cached list of active nodes; the parents are
    /// distinct graphs of the pool.
    pub open spec fn wf(&self) -> bool {
        &&& self.chromosomes@.len() == self.params.mu + self.params.lambda
        &&& forall|i: int|
            0 <= i < self.chromosomes@.len() ==> {
                let c = #[trigger] self.chromosomes@[i];
                &&& c.wf()
                &&& c.params == self.params
                &&& c.active_nodes is Some
            }
        &&& self.parent_ids@.no_duplicates()
        &&& forall|k: int| 0 <= k < self.parent_ids@.len() ==> (#[trigger] self.parent_ids@[k]) < self.chromosomes@.len()
        &&& self.mutation_type <= 1
        &&& self.two_conn_constant == spec_two_conn_constant(self.params.nbr_inputs + self.params.graph_width)
    }

    /// A pool of random graphs, each with its list of active nodes, and no
    /// parents yet.
    pub fn new(params: CgpParameters, mut_type: usize, mut_threshold: u32, elitism_type: usize) -> (r: Self)
        requires
            params.wf(),
            params.mu + params.lambda <= usize::MAX,
            mut_type <= 1,
            spec_two_conn_constant(params.nbr_inputs + params.graph_width) <= usize::MAX,
        ensures
            r.wf(),
            r.params == params,
            r.parent_ids@.len() == 0,
            r.mutation_type == mut_type,
            r.mutation_threshold == mut_threshold,
            r.elitism_type == elitism_type,
            forall|i: int| 0 <= i < r.chromosomes@.len() ==> (#[trigger] r.chromosomes@[i]).active_is_current(),
    {
        let count = params.mu + params.lambda;
        let mut chromosomes: Vec<Chromosome> = Vec::with_capacity(count);
        let mut i: usize = 0;
        while i < count
            invariant
                params.wf(),
                i <= count,
                chromosomes@.len() == i,
                forall|k: int|
                    0 <= k < i ==> {
                        let c = #[trigger] chromosomes@[k];
                        &&& c.wf()
                        &&& c.params == params
                        &&& c.active_nodes is Some
                        &&& c.active_is_current()
                    },
            decreases count - i,
        {
            let mut chromosome = Chromosome::new(params);
            chromosome.get_active_nodes_id();
            chromosomes.push(chromosome);
            i += 1;
        }
        Self {
            params,
            chromosomes,
            parent_ids: Vec::with_capacity(params.mu),
            mutation_type: mut_type,
            mutation_threshold: mut_threshold,
            all_active_nodes: Vec::new(),
            two_conn_constant: two_conn_constant(params.nbr_inputs + params.graph_width),
            elitism_type,
            num_active_nodes: Vec::new(),
        }
    }

    /// Chooses the parents of the next generation by the selection method of
    /// the search, from the whole pool or, with `replace_parents`, from the
    /// graphs that are no parents now. `keys` holds the fitness of each graph
    /// as a key, smaller being better. Fitness-uniform selection goes by
    /// `distance_keys` instead: one row for every parent to choose, which
    /// holds the distance of the fitness of each graph to the target drawn for
    /// that parent, as a key; without rows, which stands for fitness values
    /// all alike, it draws the parents at random.
    pub fn new_parents_by_method(&mut self, replace_parents: bool, keys: &Vec<u64>, distance_keys: &Vec<Vec<u64>>)
        requires
            old(self).wf(),
            old(self).elitism_type <= 2,
            keys@.len() == old(self).chromosomes@.len(),
            old(self).params.mu <= old(self).chromosomes@.len() - (if replace_parents {
                old(self).parent_ids@.len()
            } else {
                0
            }),
            old(self).elitism_type == 2 ==> distance_keys@.len() == 0 || distance_keys@.len() == old(self).params.mu,
            old(self).elitism_type == 2 ==> forall|k: int|
                0 <= k < distance_keys@.len() ==> (#[trigger] distance_keys@[k])@.len() == old(self).chromosomes@.len(),
        ensures
            final(self).wf(),
            final(self).params == old(self).params,
            final(self).chromosomes@ == old(self).chromosomes@,
            final(self).elitism_type == old(self).elitism_type,
            final(self).mutation_type == old(self).mutation_type,
            final(self).mutation_threshold == old(self).mutation_threshold,
            final(self).parent_ids@.len() == old(self).params.mu,
            replace_parents ==> forall|k: int|
                0 <= k < final(self).parent_ids@.len() ==> !old(self).parent_ids@.contains(
                    #[trigger] final(self).parent_ids@[k],
                ),
            old(self).elitism_type == 0 ==> exists|pool: Seq<usize>|
                {
                    &&& #[trigger] is_pool(old(self).chromosomes.len(), old(self).parent_ids@, replace_parents, pool)
                    &&& is_neutral_choice(
                        keys@,
                        pool,
                        old(self).parent_ids@,
                        old(self).params.mu as nat,
                        final(self).parent_ids@,
                    )
                },
            old(self).elitism_type == 2 && distance_keys@.len() > 0 ==> exists|pool: Seq<usize>|
                {
                    &&& #[trigger] is_pool(old(self).chromosomes.len(), old(self).parent_ids@, replace_parents, pool)
                    &&& ascending(pool)
                    &&& is_fitness_uniform_choice(distance_keys@, pool, final(self).parent_ids@)
                },
    {
        let total = self.chromosomes.len();
        let pool = selection_pool(total, &self.parent_ids, replace_parents);
        proof {
            assert forall|a: int, b: int| 0 <= a < pool@.len() && 0 <= b < pool@.len() && a != b implies pool@[a]
                != pool@[b] by {
                if a < b {
                    assert(pool@[a] < pool@[b]);
                } else {
                    assert(pool@[b] < pool@[a]);
                }
            }
            assert forall|i: int| 0 <= i < pool@.len() implies (#[trigger] pool@[i]) < total by {
                assert(pool@.contains(pool@[i]));
            }
            lemma_pool_size(total, self.parent_ids@, replace_parents, pool@);
        }
        let new_parents = if self.elitism_type == 0 {
            new_parent_by_neutral_search(keys, &pool, &self.parent_ids, self.params.mu)
        } else if self.elitism_type == 2 && distance_keys.len() > 0 {
            new_parents_by_fuss(distance_keys, &pool)
        } else {
            new_random_parents(&pool, self.params.mu)
        };
        proof {
            assert forall|k: int| 0 <= k < new_parents@.len() implies (#[trigger] new_parents@[k]) < total && (
            replace_parents ==> !self.parent_ids@.contains(new_parents@[k])) by {
                assert(pool@.contains(new_parents@[k]));
            }
        }
        proof {
            if self.elitism_type == 0 {
                assert(is_pool(old(self).chromosomes.len(), old(self).parent_ids@, replace_parents, pool@));
                assert(is_neutral_choice(
                    keys@,
                    pool@,
                    old(self).parent_ids@,
                    old(self).params.mu as nat,
                    new_parents@,
                ));
            }
            if self.elitism_type == 2 && distance_keys@.len() > 0 {
                assert(is_pool(old(self).chromosomes.len(), old(self).parent_ids@, replace_parents, pool@));
                assert(is_fitness_uniform_choice(distance_keys@, pool@, new_parents@));
            }
        }
        self.parent_ids = new_parents;
    }

    /// Makes the graphs of `ids` the parents.
    pub fn set_parent_ids(&mut self, ids: Vec<usize>)
        requires
            old(self).wf(),
            ids@.no_duplicates(),
            forall|k: int| 0 <= k < ids@.len() ==> (#[trigger] ids@[k]) < old(self).chromosomes@.len(),
        ensures
            final(self).wf(),
            final(self).parent_ids@ == ids@,
            final(self).params == old(self).params,
            final(self).chromosomes@ == old(self).chromosomes@,
            final(self).elitism_type == old(self).elitism_type,
            final(self).mutation_type == old(self).mutation_type,
            final(self).mutation_threshold == old(self).mutation_threshold,
    {
        self.parent_ids = ids;
    }

    /// Replaces every graph that is no parent by a mutated copy of a parent,
    /// the parents taking turns in the order of their list. The copy is
    /// mutated as the search is set: until an active node is hit, or every node
    /// with the chance of the search.
    pub fn mutate_chromosomes(&mut self)
        requires
            old(self).wf(),
            old(self).parent_ids@.len() == old(self).params.mu,
            old(self).params.mu > 0,
        ensures
            final(self).wf(),
            final(self).params == old(self).params,
            final(self).parent_ids@ == old(self).parent_ids@,
            final(self).elitism_type == old(self).elitism_type,
            final(self).mutation_type == old(self).mutation_type,
            final(self).mutation_threshold == old(self).mutation_threshold,
            forall|k: int|
                0 <= k < old(self).parent_ids@.len() ==> final(self).chromosomes@[old(self).parent_ids@[k] as int]
                    == old(self).chromosomes@[#[trigger] old(self).parent_ids@[k] as int],
            forall|i: int|
                0 <= i < old(self).chromosomes@.len() && !old(self).parent_ids@.contains(i as usize) ==> {
                    let child = #[trigger] final(self).chromosomes@[i];
                    let parent = old(self).chromosomes@[parent_in_turn(old(self).parent_ids@, i) as int];
                    is_mutation_of(child, parent, old(self).mutation_type, old(self).mutation_threshold)
                },
    {
        let count = self.chromosomes.len();
        let mut current_parent: usize = 0;
        let mut i: usize = 0;
        while i < count
            invariant
                self.wf(),
                self.params == old(self).params,
                self.parent_ids@ == old(self).parent_ids@,
                self.elitism_type == old(self).elitism_type,
                self.mutation_type == old(self).mutation_type,
                self.mutation_threshold == old(self).mutation_threshold,
                self.parent_ids@.len() == self.params.mu,
                self.params.mu > 0,
                count == self.chromosomes@.len(),
                count == old(self).chromosomes@.len(),
                i <= count,
                current_parent < self.params.mu,
                current_parent == children_before(self.parent_ids@, i as nat) % (self.params.mu as nat),
                forall|k: int|
                    0 <= k < self.parent_ids@.len() ==> self.chromosomes@[self.parent_ids@[k] as int] == old(
                        self,
                    ).chromosomes@[#[trigger] self.parent_ids@[k] as int],
                forall|j: int|
                    0 <= j < i && !self.parent_ids@.contains(j as usize) ==> {
                        let child = #[trigger] self.chromosomes@[j];
                        let parent = old(self).chromosomes@[parent_in_turn(self.parent_ids@, j) as int];
                        is_mutation_of(child, parent, self.mutation_type, self.mutation_threshold)
                    },
            decreases count - i,
        {
            let ghost turn = current_parent;
            if !contains(&self.parent_ids, i) {
                let parent = self.parent_ids[current_parent];
                let mut child = self.chromosomes[parent].clone();
                current_parent = (current_parent + 1) % self.params.mu;
                proof {
                    let before = children_before(self.parent_ids@, i as nat);
                    let mu = self.params.mu as nat;
                    assert(children_before(self.parent_ids@, (i + 1) as nat) == before + 1);
                    assert((before % mu + 1) % mu == (before + 1) % mu) by (nonlinear_arith)
                        requires
                            mu > 0,
                    ;
                    assert(turn == before % mu);
                    assert(self.parent_ids@.len() == mu);
                    assert(parent == self.parent_ids@[turn as int]);
                    assert(parent == parent_in_turn(self.parent_ids@, i as int));
                    assert(self.chromosomes@[parent as int] == old(self).chromosomes@[parent as int]);
                }
                proof {
                    let source = self.chromosomes@[parent as int];
                    assert(source.wf() && source.params == self.params && source.active_nodes is Some);
                }
                let ghost source = self.chromosomes@[parent as int];
                let ghost copy = child;
                if self.mutation_type == 0 {
                    let hit = child.mutate_single();
                    proof {
                        let (grids, draws) = choose|grids: Seq<Seq<Node>>, draws: Seq<usize>| #[trigger]
                            is_mutation_until_active(
                                copy.params,
                                copy.nodes_grid@,
                                child.nodes_grid@,
                                copy.active_nodes->0@,
                                hit,
                                grids,
                                draws,
                            );
                        assert(is_mutation_until_active(
                            source.params,
                            source.nodes_grid@,
                            child.nodes_grid@,
                            source.active_nodes->0@,
                            hit,
                            grids,
                            draws,
                        ));
                    }
                } else {
                    child.mutate_prob(self.mutation_threshold);
                }
                assert(is_mutation_of(child, source, self.mutation_type, self.mutation_threshold));
                self.chromosomes[i] = child;
            } else {
                assert(children_before(self.parent_ids@, (i + 1) as nat) == children_before(
                    self.parent_ids@,
                    i as nat,
                ));
            }
            i += 1;
        }
    }

    /// Replaces every graph that is no parent by a copy of a parent drawn at
    /// random, mutated until an active node is hit.
    pub fn mutate_chromosomes_random_parent(&mut self)
        requires
            old(self).wf(),
            old(self).parent_ids@.len() > 0,
        ensures
            final(self).wf(),
            final(self).params == old(self).params,
            final(self).parent_ids@ == old(self).parent_ids@,
            final(self).elitism_type == old(self).elitism_type,
            final(self).mutation_type == old(self).mutation_type,
            final(self).mutation_threshold == old(self).mutation_threshold,
            forall|k: int|
                0 <= k < old(self).parent_ids@.len() ==> final(self).chromosomes@[old(self).parent_ids@[k] as int]
                    == old(self).chromosomes@[#[trigger] old(self).parent_ids@[k] as int],
            forall|i: int|
                0 <= i < old(self).chromosomes@.len() && !old(self).parent_ids@.contains(i as usize)
                    ==> is_mutant_of_a_parent(
                    #[trigger] final(self).chromosomes@[i],
                    old(self).chromosomes@,
                    old(self).parent_ids@,
                ),
    {
        let count = self.chromosomes.len();
        let mut i: usize = 0;
        while i < count
            invariant
                self.wf(),
                self.params == old(self).params,
                self.parent_ids@ == old(self).parent_ids@,
                self.elitism_type == old(self).elitism_type,
                self.mutation_type == old(self).mutation_type,
                self.mutation_threshold == old(self).mutation_threshold,
                self.parent_ids@.len() > 0,
                count == self.chromosomes@.len(),
                count == old(self).chromosomes@.len(),
                i <= count,
                forall|k: int|
                    0 <= k < self.parent_ids@.len() ==> self.chromosomes@[self.parent_ids@[k] as int] == old(
                        self,
                    ).chromosomes@[#[trigger] self.parent_ids@[k] as int],
                forall|j: int|
                    0 <= j < i && !self.parent_ids@.contains(j as usize) ==> is_mutant_of_a_parent(
                        #[trigger] self.chromosomes@[j],
                        old(self).chromosomes@,
                        self.parent_ids@,
                    ),
            decreases count - i,
        {
            if !contains(&self.parent_ids, i) {
                let turn = random_below(self.parent_ids.len());
                let rand_parent_id = self.parent_ids[turn];
                let mut child = self.chromosomes[rand_parent_id].clone();
                proof {
                    let source = self.chromosomes@[rand_parent_id as int];
                    assert(source.wf() && source.params == self.params && source.active_nodes is Some);
                    assert(source == old(self).chromosomes@[self.parent_ids@[turn as int] as int]);
                }
                let ghost copy = child;
                let hit = child.mutate_single();
                proof {
                    let source = self.chromosomes@[rand_parent_id as int];
                    let (grids, draws) = choose|grids: Seq<Seq<Node>>, draws: Seq<usize>| #[trigger]
                        is_mutation_until_active(
                            copy.params,
                            copy.nodes_grid@,
                            child.nodes_grid@,
                            copy.active_nodes->0@,
                            hit,
                            grids,
                            draws,
                        );
                    assert(is_mutation_until_active(
                        source.params,
                        source.nodes_grid@,
                        child.nodes_grid@,
                        source.active_nodes->0@,
                        hit,
                        grids,
                        draws,
                    ));
                    assert(is_mutation_of(child, source, 0, 0));
                }
                self.chromosomes[i] = child;
                proof {
                    assert(is_mutation_of(
                        self.chromosomes@[i as int],
                        old(self).chromosomes@[self.parent_ids@[turn as int] as int],
                        0,
                        0,
                    ));
                    assert(is_mutant_of_a_parent(
                        self.chromosomes@[i as int],
                        old(self).chromosomes@,
                        self.parent_ids@,
                    ));
                }
            }
            i += 1;
        }
    }

    /// Brings the list of active nodes of every graph up to date, and records
    /// how many active nodes each graph has and which they are.
    pub fn get_active_nodes(&mut self)
        requires
            old(self).wf(),
        ensures
            final(self).wf(),
            final(self).params == old(self).params,
            final(self).parent_ids@ == old(self).parent_ids@,
            final(self).elitism_type == old(self).elitism_type,
            final(self).mutation_type == old(self).mutation_type,
            final(self).mutation_threshold == old(self).mutation_threshold,
            final(self).chromosomes@.len() == old(self).chromosomes@.len(),
            forall|i: int|
                0 <= i < final(self).chromosomes@.len() ==> {
                    let c = #[trigger] final(self).chromosomes@[i];
                    &&& c.nodes_grid@ == old(self).chromosomes@[i].nodes_grid@
                    &&& c.active_is_current()
                    &&& final(self).num_active_nodes@[i] == c.active_nodes->0@.len()
                },
            final(self).num_active_nodes@.len() == final(self).chromosomes@.len(),
            final(self).all_active_nodes@ == active_nodes_of(
                final(self).chromosomes@,
                final(self).chromosomes@.len(),
            ),
    {
        self.all_active_nodes = Vec::new();
        self.num_active_nodes = Vec::new();
        let count = self.chromosomes.len();
        let mut i: usize = 0;
        while i < count
            invariant
                self.wf(),
                self.params == old(self).params,
                self.parent_ids@ == old(self).parent_ids@,
                self.elitism_type == old(self).elitism_type,
                self.mutation_type == old(self).mutation_type,
                self.mutation_threshold == old(self).mutation_threshold,
                count == self.chromosomes@.len(),
                count == old(self).chromosomes@.len(),
                i <= count,
                self.num_active_nodes@.len() == i,
                forall|k: int|
                    0 <= k < count ==> (#[trigger] self.chromosomes@[k]).nodes_grid@ == old(self).chromosomes@[k].nodes_grid@,
                forall|k: int|
                    0 <= k < i ==> {
                        let c = #[trigger] self.chromosomes@[k];
                        &&& c.active_is_current()
                        &&& self.num_active_nodes@[k] == c.active_nodes->0@.len()
                    },
                self.all_active_nodes@ == active_nodes_of(self.chromosomes@, i as nat),
            decreases count - i,
        {
            let ghost before = self.chromosomes@;
            let mut chromosome = self.chromosomes[i].clone();
            chromosome.get_active_nodes_id();
            match &chromosome.active_nodes {
                Some(active_nodes) => {
                    self.num_active_nodes.push(active_nodes.len());
                    let mut j: usize = 0;
                    while j < active_nodes.len()
                        invariant
                            j <= active_nodes@.len(),
                            self.all_active_nodes@ == active_nodes_of(before, i as nat) + active_nodes@.subrange(
                                0,
                                j as int,
                            ),
                            self.wf(),
                            self.params == old(self).params,
                            self.parent_ids@ == old(self).parent_ids@,
                            self.elitism_type == old(self).elitism_type,
                            self.mutation_type == old(self).mutation_type,
                            self.mutation_threshold == old(self).mutation_threshold,
                            self.chromosomes@ == before,
                            self.num_active_nodes@.len() == i + 1,
                            self.num_active_nodes@[i as int] == active_nodes@.len(),
                            forall|k: int|
                                0 <= k < i ==> self.num_active_nodes@[k] == (
                                #[trigger] before[k]).active_nodes->0@.len(),
                        decreases active_nodes@.len() - j,
                    {
                        self.all_active_nodes.push(active_nodes[j]);
                        assert(active_nodes@.subrange(0, j + 1) =~= active_nodes@.subrange(0, j as int).push(
                            active_nodes@[j as int],
                        ));
                        assert(self.all_active_nodes@ =~= active_nodes_of(before, i as nat) + active_nodes@.subrange(
                            0,
                            j + 1,
                        ));
                        j += 1;
                    }
                    assert(active_nodes@.subrange(0, active_nodes@.len() as int) =~= active_nodes@);
                },
                None => {},
            }
            self.chromosomes[i] = chromosome;
            proof {
                lemma_active_nodes_of_prefix(before, self.chromosomes@, i as nat);
            }
            i += 1;
        }
    }

    /// The number of active nodes of each graph, as last recorded.
    pub fn get_num_active_nodes(&self) -> (r: Vec<usize>)
        ensures
            r@ == self.num_active_nodes@,
    {
        let r = self.num_active_nodes.clone();
        assert(r@ =~= self.num_active_nodes@);
        r
    }

    /// The active nodes of all graphs, as last recorded.
    pub fn get_all_active_nodes(&self) -> (r: Vec<usize>)
        ensures
            r@ == self.all_active_nodes@,
    {
        let r = self.all_active_nodes.clone();
        assert(r@ =~= self.all_active_nodes@);
        r
    }

    /// A copy of the first parent.
    pub fn get_parent(&self) -> (r: Chromosome)
        requires
            self.wf(),
            self.parent_ids@.len() > 0,
        ensures
            r.same_as(&self.chromosomes@[self.parent_ids@[0] as int]),
    {
        self.chromosomes[self.parent_ids[0]].clone()
    }

    /// Whether every graph of the pool takes an ant of the two-table layout
    /// that fits it.
    pub fn check_two_table_ants(&self, func_ants: &Vec<Vec<usize>>, conn_ants: &Vec<Vec<usize>>) -> (b: bool)
        requires
            self.wf(),
        ensures
            b == self.two_table_ants_fit(func_ants@, conn_ants@),
    {
        let count = self.chromosomes.len();
        if func_ants.len() != count || conn_ants.len() != count {
            return false;
        }
        let graph_width = self.params.graph_width;
        let mut i: usize = 0;
        while i < count
            invariant
                self.wf(),
                count == self.chromosomes@.len(),
                func_ants@.len() == count,
                conn_ants@.len() == count,
                graph_width == self.params.graph_width,
                i <= count,
                forall|k: int|
                    0 <= k < i ==> {
                        &&& (#[trigger] func_ants@[k])@.len() >= self.params.graph_width
                        &&& conn_ants@[k]@.len() >= self.params.graph_width + self.params.nbr_outputs
                        &&& two_table_ant_fits(self.params, func_ants@[k]@, conn_ants@[k]@)
                    },
            decreases count - i,
        {
            let chromosome = &self.chromosomes[i];
            assert(chromosome.wf() && chromosome.params == self.params);
            assert(self.params.total() == chromosome.nodes_grid.len());
            if func_ants[i].len() < graph_width || conn_ants[i].len() < graph_width + self.params.nbr_outputs {
                return false;
            }
            if !chromosome.check_two_table_ant(&func_ants[i], &conn_ants[i]) {
                return false;
            }
            i += 1;
        }
        true
    }

    /// There is an ant of the two-table layout for every graph of the pool,
    /// and each fits.
    pub open spec fn two_table_ants_fit(&self, func_ants: Seq<Vec<usize>>, conn_ants: Seq<Vec<usize>>) -> bool {
        &&& func_ants.len() == self.chromosomes@.len()
        &&& conn_ants.len() == self.chromosomes@.len()
        &&& forall|k: int|
            0 <= k < self.chromosomes@.len() ==> {
                &&& (#[trigger] func_ants[k])@.len() >= self.params.graph_width
                &&& conn_ants[k]@.len() >= self.params.graph_width + self.params.nbr_outputs
                &&& two_table_ant_fits(self.params, func_ants[k]@, conn_ants[k]@)
            }
    }

    /// Writes into each graph of the pool the choices of its ant of the
    /// two-table layout.
    pub fn set_two_table_ants(&mut self, func_ants: &Vec<Vec<usize>>, conn_ants: &Vec<Vec<usize>>)
        requires
            old(self).wf(),
            old(self).two_table_ants_fit(func_ants@, conn_ants@),
        ensures
            final(self).wf(),
            final(self).params == old(self).params,
            final(self).parent_ids@ == old(self).parent_ids@,
            final(self).elitism_type == old(self).elitism_type,
            final(self).mutation_type == old(self).mutation_type,
            final(self).mutation_threshold == old(self).mutation_threshold,
            final(self).chromosomes@.len() == old(self).chromosomes@.len(),
            forall|i: int, j: int|
                0 <= i < old(self).chromosomes@.len() && 0 <= j < old(self).params.graph_width + old(
                    self,
                ).params.nbr_outputs ==> (#[trigger] final(self).chromosomes@[i]).nodes_grid@[old(self).params.nbr_inputs
                    + j] == with_two_table_choice(
                    old(self).params,
                    #[trigger] old(self).chromosomes@[i].nodes_grid@[old(self).params.nbr_inputs + j],
                    j,
                    func_ants@[i]@,
                    conn_ants@[i]@,
                ),
    {
        let count = self.chromosomes.len();
        let mut i: usize = 0;
        while i < count
            invariant
                self.wf(),
                self.params == old(self).params,
                self.parent_ids@ == old(self).parent_ids@,
                self.elitism_type == old(self).elitism_type,
                self.mutation_type == old(self).mutation_type,
                self.mutation_threshold == old(self).mutation_threshold,
                count == self.chromosomes@.len(),
                count == old(self).chromosomes@.len(),
                old(self).two_table_ants_fit(func_ants@, conn_ants@),
                i <= count,
                forall|k: int| i <= k < count ==> self.chromosomes@[k] == old(self).chromosomes@[k],
                forall|k: int, j: int|
                    0 <= k < i && 0 <= j < self.params.graph_width + self.params.nbr_outputs ==> (
                    #[trigger] self.chromosomes@[k]).nodes_grid@[self.params.nbr_inputs + j] == with_two_table_choice(
                        self.params,
                        #[trigger] old(self).chromosomes@[k].nodes_grid@[self.params.nbr_inputs + j],
                        j,
                        func_ants@[k]@,
                        conn_ants@[k]@,
                    ),
            decreases count - i,
        {
            let mut chromosome = self.chromosomes[i].clone();
            proof {
                let source = self.chromosomes@[i as int];
                assert(source.wf() && source.params == self.params && source.active_nodes is Some);
                assert(func_ants@[i as int]@.len() >= self.params.graph_width);
            }
            chromosome.set_two_table_ant(&func_ants[i], &conn_ants[i]);
            self.chromosomes[i] = chromosome;
            i += 1;
        }
    }

    /// There is an ant of the one-table layout for every graph of the pool,
    /// and each fits.
    pub open spec fn one_table_ants_fit(&self, ants: Seq<Vec<usize>>) -> bool {
        &&& ants.len() == self.chromosomes@.len()
        &&& forall|k: int|
            0 <= k < self.chromosomes@.len() ==> {
                &&& (#[trigger] ants[k])@.len() >= self.params.graph_width + self.params.nbr_outputs
                &&& one_table_ant_fits(self.params, self.two_conn_constant, ants[k]@)
            }
    }

    /// Whether every graph of the pool takes an ant of the one-table layout
    /// that fits it.
    pub fn check_one_table_ants(&self, ants: &Vec<Vec<usize>>) -> (b: bool)
        requires
            self.wf(),
            self.params.nbr_inputs + self.params.graph_width > 0,
        ensures
            b == self.one_table_ants_fit(ants@),
    {
        let count = self.chromosomes.len();
        if ants.len() != count {
            return false;
        }
        proof {
            lemma_constant_positive(self.params.nbr_inputs + self.params.graph_width);
        }
        let mut i: usize = 0;
        while i < count
            invariant
                self.wf(),
                count == self.chromosomes@.len(),
                ants@.len() == count,
                self.two_conn_constant > 0,
                (self.params.nbr_inputs + self.params.graph_width) * (self.params.nbr_inputs
                    + self.params.graph_width) <= usize::MAX,
                i <= count,
                forall|k: int|
                    0 <= k < i ==> {
                        &&& (#[trigger] ants@[k])@.len() >= self.params.graph_width + self.params.nbr_outputs
                        &&& one_table_ant_fits(self.params, self.two_conn_constant, ants@[k]@)
                    },
            decreases count - i,
        {
            let chromosome = &self.chromosomes[i];
            assert(chromosome.wf() && chromosome.params == self.params);
            assert(self.params.total() == chromosome.nodes_grid.len());
            if ants[i].len() < self.params.graph_width + self.params.nbr_outputs {
                return false;
            }
            if !chromosome.check_one_table_ant(&ants[i], self.two_conn_constant) {
                return false;
            }
            i += 1;
        }
        true
    }

    /// Writes into each graph of the pool the choices of its ant of the
    /// one-table layout.
    pub fn set_one_table_ants(&mut self, ants: &Vec<Vec<usize>>)
        requires
            old(self).wf(),
            old(self).params.nbr_inputs + old(self).params.graph_width > 0,
            old(self).one_table_ants_fit(ants@),
        ensures
            final(self).wf(),
            final(self).params == old(self).params,
            final(self).parent_ids@ == old(self).parent_ids@,
            final(self).elitism_type == old(self).elitism_type,
            final(self).mutation_type == old(self).mutation_type,
            final(self).mutation_threshold == old(self).mutation_threshold,
            final(self).chromosomes@.len() == old(self).chromosomes@.len(),
            forall|i: int, j: int|
                0 <= i < old(self).chromosomes@.len() && 0 <= j < old(self).params.graph_width + old(
                    self,
                ).params.nbr_outputs ==> (#[trigger] final(self).chromosomes@[i]).nodes_grid@[old(self).params.nbr_inputs
                    + j] == with_one_table_choice(
                    old(self).params,
                    old(self).two_conn_constant,
                    #[trigger] old(self).chromosomes@[i].nodes_grid@[old(self).params.nbr_inputs + j],
                    j,
                    ants@[i]@,
                ),
    {
        let count = self.chromosomes.len();
        proof {
            lemma_constant_positive(self.params.nbr_inputs + self.params.graph_width);
        }
        let mut i: usize = 0;
        while i < count
            invariant
                self.wf(),
                self.params == old(self).params,
                self.parent_ids@ == old(self).parent_ids@,
                self.elitism_type == old(self).elitism_type,
                self.mutation_type == old(self).mutation_type,
                self.mutation_threshold == old(self).mutation_threshold,
                self.two_conn_constant == old(self).two_conn_constant,
                self.two_conn_constant > 0,
                (self.params.nbr_inputs + self.params.graph_width) * (self.params.nbr_inputs
                    + self.params.graph_width) <= usize::MAX,
                count == self.chromosomes@.len(),
                count == old(self).chromosomes@.len(),
                old(self).one_table_ants_fit(ants@),
                i <= count,
                forall|k: int| i <= k < count ==> self.chromosomes@[k] == old(self).chromosomes@[k],
                forall|k: int, j: int|
                    0 <= k < i && 0 <= j < self.params.graph_width + self.params.nbr_outputs ==> (
                    #[trigger] self.chromosomes@[k]).nodes_grid@[self.params.nbr_inputs + j] == with_one_table_choice(
                        self.params,
                        self.two_conn_constant,
                        #[trigger] old(self).chromosomes@[k].nodes_grid@[self.params.nbr_inputs + j],
                        j,
                        ants@[k]@,
                    ),
            decreases count - i,
        {
            let mut chromosome = self.chromosomes[i].clone();
            proof {
                let source = self.chromosomes@[i as int];
                assert(source.wf() && source.params == self.params && source.active_nodes is Some);
                assert(ants@[i as int]@.len() >= self.params.graph_width + self.params.nbr_outputs);
            }
            chromosome.set_one_table_ant(&ants[i], self.two_conn_constant);
            self.chromosomes[i] = chromosome;
            i += 1;
        }
    }

    /// The number of choices that row `row` of a table offers to the first
    /// graph of the pool. The average over the rows is the average branching
    /// of the search.
    pub fn choices(&self, row: usize) -> (count: u128)
        requires
            self.wf(),
            self.chromosomes@.len() > 0,
            row < self.params.graph_width + self.params.nbr_outputs,
        ensures
            count == spec_choices(self.chromosomes@[0], row as int),
    {
        let chromosome = &self.chromosomes[0];
        assert(chromosome.wf() && chromosome.params == self.params);
        assert(self.params.total() == chromosome.nodes_grid.len());
        let v = self.params.nbr_inputs + row;
        let node = chromosome.nodes_grid[v];
        let place = v as u128;
        assert(place * place <= 0xffff_ffff_ffff_ffff * 0xffff_ffff_ffff_ffff) by (nonlinear_arith)
            requires
                0 <= place <= 0xffff_ffff_ffff_ffff,
        ;
        let is_output = match node.node_type {
            NodeType::OutputNode => true,
            _ => false,
        };
        if !is_output && node.function_id < NBR_BINARY_FUNCTIONS {
            place * place
        } else {
            place
        }
    }
}

/// The two-connection constant of a graph with a position before the outputs
/// is positive, and the square in it is no larger.
pub proof fn lemma_constant_positive(range: int)
    requires
        range > 0,
    ensures
        spec_two_conn_constant(range) > 0,
        range * range <= spec_two_conn_constant(range),
{
    assert(range * range > 0) by (nonlinear_arith)
        requires
            range > 0,
    ;
    assert(range * range * 4 >= range * range) by (nonlinear_arith)
        requires
            range * range > 0,
    ;
}

/// The lists of the first `count` graphs do not change with the later graphs.
pub proof fn lemma_active_nodes_of_prefix(a: Seq<Chromosome>, b: Seq<Chromosome>, count: nat)
    requires
        count <= a.len(),
        a.len() == b.len(),
        forall|k: int| 0 <= k < count ==> a[k] == b[k],
    ensures
        active_nodes_of(a, count) == active_nodes_of(b, count),
    decreases count,
{
    if count > 0 {
        lemma_active_nodes_of_prefix(a, b, (count - 1) as nat);
    }
}

/// The pool holds every graph but, where they are replaced, the parents.
pub proof fn lemma_pool_size(total: usize, parent_ids: Seq<usize>, replace_parents: bool, pool: Seq<usize>)
    requires
        parent_ids.no_duplicates(),
        forall|k: int| 0 <= k < parent_ids.len() ==> (#[trigger] parent_ids[k]) < total,
        pool.no_duplicates(),
        is_pool(total, parent_ids, replace_parents, pool),
    ensures
        pool.len() == total - (if replace_parents {
            parent_ids.len()
        } else {
            0
        }),
{
    let all = Set::new(|x: usize| x < total);
    let parents = parent_ids.to_set();
    let rest = pool.to_set();
    lemma_below_len(total);
    pool.unique_seq_to_set();
    parent_ids.unique_seq_to_set();
    if replace_parents {
        assert(rest =~= all.difference(parents));
        assert(parents.subset_of(all));
        vstd::set_lib::lemma_set_difference_len(all, parents);
        assert(all.intersect(parents) =~= parents);
    } else {
        assert(rest =~= all);
    }
}

/// There are `n` numbers below `n`.
pub proof fn lemma_below_len(n: usize)
    ensures
        Set::new(|x: usize| x < n).finite(),
        Set::new(|x: usize| x < n).len() == n,
    decreases n,
{
    if n == 0 {
        assert(Set::new(|x: usize| x < n) =~= Set::<usize>::empty());
    } else {
        lemma_below_len((n - 1) as usize);
        assert(Set::new(|x: usize| x < n) =~= Set::new(|x: usize| x < (n - 1) as usize).insert((n - 1) as usize));
    }
}

} // verus!
