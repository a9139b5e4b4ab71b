//! Choice of the parents of the next generation.
//!
//! Fitness enters as keys: whole numbers ordered as the fitness values are,
//! smaller being better.

use vstd::prelude::*;
use crate::utils::graph::{ascending, contains};
use crate::utils::marking::{
    count_false, lemma_count_false_all, lemma_count_false_set, lemma_count_false_witness,
};
use crate::utils::random::{choose_multiple, picks_from};
use crate::utils::vect_difference::vect_difference;

verus! {

/// `pool` holds the individuals that may become parents: all `total` of the
/// population, without the present parents where these are to be replaced.
pub open spec fn is_pool(total: usize, parent_ids: Seq<usize>, replace_parents: bool, pool: Seq<usize>) -> bool {
    forall|x: usize| pool.contains(x) <==> (x < total && !(replace_parents && parent_ids.contains(x)))
}

/// The individuals that may become parents, in ascending order.
pub fn selection_pool(total: usize, parent_ids: &Vec<usize>, replace_parents: bool) -> (pool: Vec<usize>)
    ensures
        ascending(pool@),
        is_pool(total, parent_ids@, replace_parents, pool@),
{
    let mut all: Vec<usize> = Vec::with_capacity(total);
    let mut i: usize = 0;
    while i < total
        invariant
            i <= total,
            all@.len() == i,
            forall|k: int| 0 <= k < i ==> all@[k] == k,
        decreases total - i,
    {
        all.push(i);
        i += 1;
    }
    assert(ascending(all@));
    assert forall|x: usize| all@.contains(x) <==> x < total by {
        if x < total {
            assert(all@[x as int] == x);
        }
    }
    if replace_parents {
        vect_difference(&all, parent_ids)
    } else {
        all
    }
}

/// Individual `s` is no worse a choice than `t`: its key is smaller, or the
/// keys are equal and `s` was no parent or `t` was one too.
pub open spec fn preferred(keys: Seq<u64>, old_parents: Seq<usize>, s: usize, t: usize) -> bool {
    keys[s as int] < keys[t as int] || (keys[s as int] == keys[t as int] && (old_parents.contains(s)
        ==> old_parents.contains(t)))
}

/// `chosen` holds `amount` individuals of `pool`, none twice, each of them
/// preferred to each individual of `pool` that it does not hold.
pub open spec fn is_neutral_choice(
    keys: Seq<u64>,
    pool: Seq<usize>,
    old_parents: Seq<usize>,
    amount: nat,
    chosen: Seq<usize>,
) -> bool {
    &&& chosen.len() == amount
    &&& chosen.no_duplicates()
    &&& forall|k: int| 0 <= k < chosen.len() ==> pool.contains(#[trigger] chosen[k])
    &&& forall|k: int, t: usize|
        0 <= k < chosen.len() && pool.contains(t) && !chosen.contains(t) ==> #[trigger] preferred(
            keys,
            old_parents,
            chosen[k],
            t,
        )
}

/// The individual at place `p` of `pool` is chosen before the one at place
/// `q`: its key is smaller; or the keys are equal and it was no parent, while
/// the other was; or they are equal in that too and it stands earlier.
pub open spec fn chosen_before(keys: Seq<u64>, old_parents: Seq<usize>, pool: Seq<usize>, p: int, q: int) -> bool {
    let s = pool[p];
    let t = pool[q];
    ||| keys[s as int] < keys[t as int]
    ||| keys[s as int] == keys[t as int] && !old_parents.contains(s) && old_parents.contains(t)
    ||| keys[s as int] == keys[t as int] && old_parents.contains(s) == old_parents.contains(t) && p < q
}

/// Neutral search: the `mu` individuals of `pool` with the smallest keys
/// become parents, best first. Among individuals of equal key those that were
/// no parents come first, then the earlier in `pool`: every parent is chosen
/// before every individual that is not among the parents up to it.
pub fn new_parent_by_neutral_search(keys: &Vec<u64>, pool: &Vec<usize>, old_parents: &Vec<usize>, mu: usize) -> (r:
    Vec<usize>)
    requires
        pool@.no_duplicates(),
        forall|i: int| 0 <= i < pool@.len() ==> (#[trigger] pool@[i]) < keys@.len(),
        mu <= pool@.len(),
    ensures
        is_neutral_choice(keys@, pool@, old_parents@, mu as nat, r@),
        forall|i: int, j: int| 0 <= i < j < r@.len() ==> keys@[r@[i] as int] <= keys@[r@[j] as int],
        forall|k: int, q: int|
            0 <= k < r@.len() && 0 <= q < pool@.len() && !r@.subrange(0, k + 1).contains(pool@[q])
                ==> #[trigger] chosen_before(keys@, old_parents@, pool@, pool@.index_of(r@[k]), q),
{
    let mut taken: Vec<bool> = Vec::with_capacity(pool.len());
    let mut was_parent: Vec<bool> = Vec::with_capacity(pool.len());
    let mut i: usize = 0;
    while i < pool.len()
        invariant
            i <= pool@.len(),
            taken@.len() == i,
            was_parent@.len() == i,
            forall|k: int| 0 <= k < i ==> !taken@[k],
            forall|k: int| 0 <= k < i ==> was_parent@[k] == old_parents@.contains(pool@[k]),
        decreases pool@.len() - i,
    {
        taken.push(false);
        was_parent.push(contains(old_parents, pool[i]));
        i += 1;
    }
    let mut r: Vec<usize> = Vec::with_capacity(mu);
    let ghost mut places: Seq<int> = Seq::empty();
    proof {
        lemma_count_false_all(taken@);
    }
    while r.len() < mu
        invariant
            pool@.no_duplicates(),
            forall|k: int| 0 <= k < pool@.len() ==> (#[trigger] pool@[k]) < keys@.len(),
            mu <= pool@.len(),
            taken@.len() == pool@.len(),
            was_parent@.len() == pool@.len(),
            forall|k: int| 0 <= k < pool@.len() ==> was_parent@[k] == old_parents@.contains(pool@[k]),
            r@.len() <= mu,
            count_false(taken@) == pool@.len() - r@.len(),
            places.len() == r@.len(),
            forall|k: int| 0 <= k < places.len() ==> 0 <= (#[trigger] places[k]) < pool@.len() && taken@[places[k]]
                && r@[k] == pool@[places[k]],
            forall|a: int, b: int| 0 <= a < b < places.len() ==> places[a] != places[b],
            forall|p: int| 0 <= p < pool@.len() && taken@[p] ==> exists|k: int| 0 <= k < places.len() && places[k] == p,
            forall|k: int, p: int|
                0 <= k < r@.len() && 0 <= p < pool@.len() && !taken@[p] ==> preferred(
                    keys@,
                    old_parents@,
                    #[trigger] r@[k],
                    #[trigger] pool@[p],
                ),
            forall|a: int| 0 <= a < r@.len() ==> (#[trigger] r@[a]) < keys@.len(),
            forall|a: int, b: int| 0 <= a < b < r@.len() ==> keys@[r@[a] as int] <= keys@[r@[b] as int],
            forall|k: int, q: int|
                0 <= k < r@.len() && 0 <= q < pool@.len() && (forall|j: int| 0 <= j <= k ==> places[j] != q)
                    ==> #[trigger] chosen_before(keys@, old_parents@, pool@, places[k], q),
        decreases mu - r@.len(),
    {
        // A place that is not taken exists, because fewer than `mu` are.
        proof {
            lemma_count_false_witness(taken@);
        }
        let mut best: usize = 0;
        let mut found = false;
        let mut p: usize = 0;
        while p < pool.len()
            invariant
                forall|k: int| 0 <= k < pool@.len() ==> (#[trigger] pool@[k]) < keys@.len(),
                taken@.len() == pool@.len(),
                was_parent@.len() == pool@.len(),
                forall|k: int| 0 <= k < pool@.len() ==> was_parent@[k] == old_parents@.contains(pool@[k]),
                p <= pool@.len(),
                found ==> best < p && !taken@[best as int],
                !found ==> forall|q: int| 0 <= q < p ==> taken@[q],
                found ==> forall|q: int|
                    0 <= q < p && !taken@[q] ==> preferred(
                        keys@,
                        old_parents@,
                        pool@[best as int],
                        #[trigger] pool@[q],
                    ),
                found ==> forall|q: int|
                    0 <= q < p && !taken@[q] && q != best ==> #[trigger] chosen_before(
                        keys@,
                        old_parents@,
                        pool@,
                        best as int,
                        q,
                    ),
            decreases pool@.len() - p,
        {
            if !taken[p] {
                if !found {
                    best = p;
                    found = true;
                } else {
                    let key = keys[pool[p]];
                    let best_key = keys[pool[best]];
                    if key < best_key || (key == best_key && was_parent[best] && !was_parent[p]) {
                        best = p;
                    }
                }
            }
            p += 1;
        }
        assert(found);
        let ghost before = r@;
        let ghost taken_before = taken@;
        proof {
            lemma_count_false_set(taken@, best as int);
        }
        taken[best] = true;
        r.push(pool[best]);
        proof {
            let old_places = places;
            places = places.push(best as int);
            assert forall|a: int, b: int| 0 <= a < b < places.len() implies places[a] != places[b] by {
                if b == old_places.len() {
                    assert(taken_before[old_places[a]]);
                }
            }
            assert forall|q: int| 0 <= q < pool@.len() && taken@[q] implies exists|k: int|
                0 <= k < places.len() && places[k] == q by {
                if q == best {
                    assert(places[old_places.len() as int] == q);
                } else {
                    let k = choose|k: int| 0 <= k < old_places.len() && old_places[k] == q;
                    assert(places[k] == q);
                }
            }
            assert forall|k: int, q: int|
                0 <= k < r@.len() && 0 <= q < pool@.len() && !taken@[q] implies preferred(
                keys@,
                old_parents@,
                #[trigger] r@[k],
                #[trigger] pool@[q],
            ) by {
                if k < before.len() {
                    assert(preferred(keys@, old_parents@, before[k], pool@[q]));
                }
            }
            assert forall|a: int, b: int| 0 <= a < b < r@.len() implies keys@[r@[a] as int] <= keys@[r@[b] as int] by {
                if b == before.len() {
                    assert(preferred(keys@, old_parents@, before[a], pool@[best as int]));
                }
            }
            assert forall|k: int, q: int|
                0 <= k < r@.len() && 0 <= q < pool@.len() && (forall|j: int|
                    0 <= j <= k ==> places[j] != q) implies #[trigger] chosen_before(
                keys@,
                old_parents@,
                pool@,
                places[k],
                q,
            ) by {
                if k < before.len() {
                    assert forall|j: int| 0 <= j <= k implies old_places[j] != q by {
                        assert(places[j] != q);
                    }
                } else {
                    assert(places[k] != q);
                    if taken_before[q] {
                        let j = choose|j: int| 0 <= j < old_places.len() && old_places[j] == q;
                        assert(places[j] == q);
                    }
                }
            }
        }
    }
    proof {
        assert forall|a: int, b: int| 0 <= a < r@.len() && 0 <= b < r@.len() && a != b implies r@[a] != r@[b] by {
            assert(places[a] != places[b]);
        }
        assert forall|k: int| 0 <= k < r@.len() implies pool@.contains(#[trigger] r@[k]) by {
            assert(pool@[places[k]] == r@[k]);
        }
        assert forall|k: int, q: int|
            0 <= k < r@.len() && 0 <= q < pool@.len() && !r@.subrange(0, k + 1).contains(
                pool@[q],
            ) implies #[trigger] chosen_before(keys@, old_parents@, pool@, pool@.index_of(r@[k]), q) by {
            assert(pool@[places[k]] == r@[k]);
            let place = pool@.index_of(r@[k]);
            assert(pool@[place] == r@[k] && 0 <= place < pool@.len());
            if place != places[k] {
                assert(pool@[place] != pool@[places[k]]);
            }
            assert forall|j: int| 0 <= j <= k implies places[j] != q by {
                if places[j] == q {
                    assert(r@.subrange(0, k + 1)[j] == pool@[q]);
                }
            }
        }
        assert forall|k: int, t: usize|
            0 <= k < r@.len() && pool@.contains(t) && !r@.contains(t) implies #[trigger] preferred(
            keys@,
            old_parents@,
            r@[k],
            t,
        ) by {
            let q = choose|q: int| 0 <= q < pool@.len() && pool@[q] == t;
            if taken@[q] {
                let j = choose|j: int| 0 <= j < places.len() && places[j] == q;
                assert(r@[j] == t);
            }
            assert(preferred(keys@, old_parents@, r@[k], pool@[q]));
        }
    }
    r
}

/// At place `p` of `pool` stands the individual closest to a target among
/// those that `used` does not hold: none of them has a smaller distance, and
/// none of those before it in `pool` an equal one. `distances` holds the
/// distance of every individual to the target as a key, ordered as the
/// distances are.
pub open spec fn is_closest_unused(distances: Seq<u64>, pool: Seq<usize>, used: Seq<usize>, p: int) -> bool {
    &&& 0 <= p < pool.len()
    &&& !used.contains(pool[p])
    &&& forall|q: int|
        0 <= q < pool.len() && !used.contains(#[trigger] pool[q]) ==> distances[pool[p] as int]
            < distances[pool[q] as int] || (distances[pool[p] as int] == distances[pool[q] as int] && p <= q)
}

/// `chosen` holds one individual of `pool` for every row of `distance_keys`,
/// none twice: the one closest to the target of the row among those not
/// chosen for an earlier row.
pub open spec fn is_fitness_uniform_choice(distance_keys: Seq<Vec<u64>>, pool: Seq<usize>, chosen: Seq<usize>) -> bool {
    &&& chosen.len() == distance_keys.len()
    &&& chosen.no_duplicates()
    &&& forall|k: int|
        0 <= k < chosen.len() ==> pool.contains(#[trigger] chosen[k]) && is_closest_unused(
            distance_keys[k]@,
            pool,
            chosen.subrange(0, k),
            pool.index_of(chosen[k]),
        )
}

/// The place in `pool` of the individual closest to a target among those
/// whose place is not `taken`, the first of them where several are as close.
pub fn closest_unused(distances: &Vec<u64>, pool: &Vec<usize>, taken: &Vec<bool>) -> (place: usize)
    requires
        taken@.len() == pool@.len(),
        forall|i: int| 0 <= i < pool@.len() ==> (#[trigger] pool@[i]) < distances@.len(),
        exists|i: int| 0 <= i < taken@.len() && !taken@[i],
    ensures
        place < pool@.len(),
        !taken@[place as int],
        forall|q: int|
            0 <= q < pool@.len() && !taken@[q] ==> distances@[pool@[place as int] as int] < distances@[(
            #[trigger] pool@[q]) as int] || (distances@[pool@[place as int] as int] == distances@[pool@[q] as int]
                && place <= q),
{
    let mut best: usize = 0;
    let mut found = false;
    let mut p: usize = 0;
    while p < pool.len()
        invariant
            taken@.len() == pool@.len(),
            forall|i: int| 0 <= i < pool@.len() ==> (#[trigger] pool@[i]) < distances@.len(),
            p <= pool@.len(),
            found ==> best < p && !taken@[best as int],
            !found ==> forall|q: int| 0 <= q < p ==> taken@[q],
            found ==> forall|q: int|
                0 <= q < p && !taken@[q] ==> distances@[pool@[best as int] as int] < distances@[(
                #[trigger] pool@[q]) as int] || (distances@[pool@[best as int] as int] == distances@[pool@[q] as int]
                    && best <= q),
        decreases pool@.len() - p,
    {
        if !taken[p] {
            if !found {
                best = p;
                found = true;
            } else if distances[pool[p]] < distances[pool[best]] {
                best = p;
            }
        }
        p += 1;
    }
    best
}

/// Fitness-uniform selection: for every row of `distance_keys`, in turn, the
/// individual of `pool` closest to the target of that row, among those not
/// chosen yet, becomes a parent; the first of them in `pool` where several
/// are as close. Row `k` holds, for every individual, its distance to the
/// `k`-th target as a key, ordered as the distances are.
pub fn new_parents_by_fuss(distance_keys: &Vec<Vec<u64>>, pool: &Vec<usize>) -> (r: Vec<usize>)
    requires
        pool@.no_duplicates(),
        distance_keys@.len() <= pool@.len(),
        forall|k: int, i: int|
            0 <= k < distance_keys@.len() && 0 <= i < pool@.len() ==> (#[trigger] pool@[i]) < (
            #[trigger] distance_keys@[k])@.len(),
    ensures
        is_fitness_uniform_choice(distance_keys@, pool@, r@),
{
    let rounds = distance_keys.len();
    let mut taken: Vec<bool> = Vec::with_capacity(pool.len());
    let mut i: usize = 0;
    while i < pool.len()
        invariant
            i <= pool@.len(),
            taken@.len() == i,
            forall|k: int| 0 <= k < i ==> !taken@[k],
        decreases pool@.len() - i,
    {
        taken.push(false);
        i += 1;
    }
    let mut r: Vec<usize> = Vec::with_capacity(rounds);
    let ghost mut places: Seq<int> = Seq::empty();
    proof {
        lemma_count_false_all(taken@);
    }
    while r.len() < rounds
        invariant
            pool@.no_duplicates(),
            rounds == distance_keys@.len(),
            rounds <= pool@.len(),
            forall|k: int, i: int|
                0 <= k < distance_keys@.len() && 0 <= i < pool@.len() ==> (#[trigger] pool@[i]) < (
                #[trigger] distance_keys@[k])@.len(),
            taken@.len() == pool@.len(),
            r@.len() <= rounds,
            count_false(taken@) == pool@.len() - r@.len(),
            places.len() == r@.len(),
            forall|k: int| 0 <= k < places.len() ==> 0 <= (#[trigger] places[k]) < pool@.len() && taken@[places[k]]
                && r@[k] == pool@[places[k]],
            forall|a: int, b: int| 0 <= a < b < places.len() ==> places[a] != places[b],
            forall|p: int| 0 <= p < pool@.len() && taken@[p] ==> exists|k: int| 0 <= k < places.len() && places[k] == p,
            forall|k: int|
                0 <= k < places.len() ==> is_closest_unused(
                    distance_keys@[k]@,
                    pool@,
                    r@.subrange(0, k),
                    #[trigger] places[k],
                ),
        decreases rounds - r@.len(),
    {
        // A place that is not taken exists, because fewer than `rounds` are.
        proof {
            lemma_count_false_witness(taken@);
        }
        let round = r.len();
        let row = &distance_keys[round];
        assert forall|i: int| 0 <= i < pool@.len() implies (#[trigger] pool@[i]) < row@.len() by {
            assert(pool@[i] < distance_keys@[round as int]@.len());
        }
        let best = closest_unused(row, pool, &taken);
        let ghost before = r@;
        let ghost taken_before = taken@;
        proof {
            lemma_count_false_set(taken@, best as int);
            assert(!before.contains(pool@[best as int])) by {
                if before.contains(pool@[best as int]) {
                    let j = choose|j: int| 0 <= j < before.len() && before[j] == pool@[best as int];
                    assert(pool@[places[j]] == pool@[best as int]);
                    assert(places[j] == best);
                }
            }
            assert forall|q: int| 0 <= q < pool@.len() && !before.contains(#[trigger] pool@[q]) implies !taken@[q] by {
                if taken@[q] {
                    let j = choose|j: int| 0 <= j < places.len() && places[j] == q;
                    assert(before[j] == pool@[q]);
                }
            }
            assert(is_closest_unused(row@, pool@, before, best as int));
        }
        taken[best] = true;
        r.push(pool[best]);
        proof {
            let old_places = places;
            places = places.push(best as int);
            assert forall|a: int, b: int| 0 <= a < b < places.len() implies places[a] != places[b] by {
                if b == old_places.len() {
                    assert(taken_before[old_places[a]]);
                }
            }
            assert forall|q: int| 0 <= q < pool@.len() && taken@[q] implies exists|k: int|
                0 <= k < places.len() && places[k] == q by {
                if q == best {
                    assert(places[old_places.len() as int] == q);
                } else {
                    let k = choose|k: int| 0 <= k < old_places.len() && old_places[k] == q;
                    assert(places[k] == q);
                }
            }
            assert forall|k: int| 0 <= k < places.len() implies is_closest_unused(
                distance_keys@[k]@,
                pool@,
                r@.subrange(0, k),
                #[trigger] places[k],
            ) by {
                if k < old_places.len() {
                    assert(r@.subrange(0, k) =~= before.subrange(0, k));
                    assert(is_closest_unused(distance_keys@[k]@, pool@, before.subrange(0, k), old_places[k]));
                } else {
                    assert(r@.subrange(0, k) =~= before);
                }
            }
        }
    }
    proof {
        assert forall|a: int, b: int| 0 <= a < r@.len() && 0 <= b < r@.len() && a != b implies r@[a] != r@[b] by {
            assert(places[a] != places[b]);
        }
        assert forall|k: int| 0 <= k < r@.len() implies pool@.contains(#[trigger] r@[k]) && is_closest_unused(
            distance_keys@[k]@,
            pool@,
            r@.subrange(0, k),
            pool@.index_of(r@[k]),
        ) by {
            assert(pool@[places[k]] == r@[k]);
            let place = pool@.index_of(r@[k]);
            assert(pool@[place] == r@[k] && 0 <= place < pool@.len());
            if place != places[k] {
                assert(pool@[place] != pool@[places[k]]);
            }
        }
    }
    r
}

/// The members of `class` that `taken` does not hold, each once, in the
/// order in which `class` first names them.
pub open spec fn fresh_members(class: Seq<usize>, taken: Seq<usize>) -> Seq<usize>
    decreases class.len(),
{
    if class.len() == 0 {
        Seq::empty()
    } else {
        let before = fresh_members(class.drop_last(), taken);
        if taken.contains(class.last()) || before.contains(class.last()) {
            before
        } else {
            before.push(class.last())
        }
    }
}

/// What a class of individuals of equal fitness gives to the parents, of
/// which `chosen` are found and `mu` are wanted. The members not chosen yet
/// all become parents if they fill the places left exactly, or if the class
/// is the best one and they fit in. Otherwise those of them that were no
/// parents do, as far as places are left.
pub open spec fn class_share(
    class: Seq<usize>,
    old_parents: Seq<usize>,
    chosen: Seq<usize>,
    mu: nat,
    first: bool,
) -> Seq<usize> {
    let room = mu - chosen.len();
    let fresh = fresh_members(class, chosen);
    let young = fresh_members(class, chosen + old_parents);
    if (first && fresh.len() <= room) || fresh.len() == room {
        fresh
    } else if young.len() <= room {
        young
    } else {
        young.subrange(0, room)
    }
}

/// The parents that the first `count` classes give, the classes taken in
/// turn until `mu` parents are found.
pub open spec fn tie_class_parents(classes: Seq<Vec<usize>>, old_parents: Seq<usize>, mu: nat, count: nat) -> Seq<
    usize,
>
    decreases count,
{
    if count == 0 {
        Seq::empty()
    } else {
        let chosen = tie_class_parents(classes, old_parents, mu, (count - 1) as nat);
        if chosen.len() >= mu {
            chosen
        } else {
            chosen + class_share(classes[count - 1]@, old_parents, chosen, mu, count == 1)
        }
    }
}

/// Individual `x` stands in one of the `classes`.
pub open spec fn in_a_class(classes: Seq<Vec<usize>>, x: usize) -> bool {
    exists|c: int| 0 <= c < classes.len() && (#[trigger] classes[c])@.contains(x)
}

/// The fresh members of a class are its members outside `taken`, none twice.
pub proof fn lemma_fresh_members(class: Seq<usize>, taken: Seq<usize>)
    ensures
        fresh_members(class, taken).no_duplicates(),
        fresh_members(class, taken).len() <= class.len(),
        forall|x: usize| fresh_members(class, taken).contains(x) <==> class.contains(x) && !taken.contains(x),
    decreases class.len(),
{
    let fresh = fresh_members(class, taken);
    if class.len() > 0 {
        let before = fresh_members(class.drop_last(), taken);
        let last = class.last();
        lemma_fresh_members(class.drop_last(), taken);
        assert forall|x: usize| fresh.contains(x) <==> class.contains(x) && !taken.contains(x) by {
            if class.contains(x) {
                let k = choose|k: int| 0 <= k < class.len() && class[k] == x;
                if k < class.len() - 1 {
                    assert(class.drop_last()[k] == x);
                }
            }
            if class.drop_last().contains(x) {
                let k = choose|k: int| 0 <= k < class.drop_last().len() && class.drop_last()[k] == x;
                assert(class[k] == x);
            }
            assert(class[class.len() - 1] == last);
            if before.contains(x) {
                let k = choose|k: int| 0 <= k < before.len() && before[k] == x;
                if fresh != before {
                    assert(fresh[k] == x);
                }
            }
            if fresh.contains(x) && fresh != before {
                let k = choose|k: int| 0 <= k < fresh.len() && fresh[k] == x;
                if k < before.len() {
                    assert(before[k] == x);
                }
            }
            if fresh != before {
                assert(fresh[before.len() as int] == last);
            }
        }
    }
}

/// What a class gives holds members of the class that were not chosen yet,
/// none twice, and no more than there are places left.
pub proof fn lemma_class_share(class: Seq<usize>, old_parents: Seq<usize>, chosen: Seq<usize>, mu: nat, first: bool)
    requires
        chosen.len() <= mu,
        chosen.no_duplicates(),
    ensures
        (chosen + class_share(class, old_parents, chosen, mu, first)).no_duplicates(),
        chosen.len() + class_share(class, old_parents, chosen, mu, first).len() <= mu,
        forall|k: int|
            0 <= k < class_share(class, old_parents, chosen, mu, first).len() ==> class.contains(
                #[trigger] class_share(class, old_parents, chosen, mu, first)[k],
            ),
{
    let share = class_share(class, old_parents, chosen, mu, first);
    let fresh = fresh_members(class, chosen);
    let young = fresh_members(class, chosen + old_parents);
    lemma_fresh_members(class, chosen);
    lemma_fresh_members(class, chosen + old_parents);
    assert forall|k: int| 0 <= k < share.len() implies class.contains(#[trigger] share[k]) && !chosen.contains(
        share[k],
    ) by {
        let x = share[k];
        if share == fresh {
            assert(fresh[k] == x);
            assert(fresh.contains(x));
        } else {
            assert(young[k] == x);
            assert(young.contains(x));
            if chosen.contains(x) {
                let j = choose|j: int| 0 <= j < chosen.len() && chosen[j] == x;
                assert((chosen + old_parents)[j] == x);
                assert((chosen + old_parents).contains(x));
            }
        }
    }
    assert forall|a: int, b: int| 0 <= a < b < share.len() implies share[a] != share[b] by {
        if share == fresh {
        } else {
            assert(young[a] == share[a] && young[b] == share[b]);
        }
    }
    let all = chosen + share;
    assert forall|a: int, b: int| 0 <= a < all.len() && 0 <= b < all.len() && a != b implies all[a] != all[b] by {
        if a < chosen.len() && b >= chosen.len() {
            assert(!chosen.contains(share[b - chosen.len()]));
        }
        if b < chosen.len() && a >= chosen.len() {
            assert(!chosen.contains(share[a - chosen.len()]));
        }
        if a >= chosen.len() && b >= chosen.len() {
            if a < b {
                assert(share[a - chosen.len()] != share[b - chosen.len()]);
            } else {
                assert(share[b - chosen.len()] != share[a - chosen.len()]);
            }
        }
    }
}

/// The parents that tie classes give are distinct members of the classes,
/// `mu` at most.
pub proof fn lemma_tie_class_parents(classes: Seq<Vec<usize>>, old_parents: Seq<usize>, mu: nat, count: nat)
    requires
        count <= classes.len(),
    ensures
        tie_class_parents(classes, old_parents, mu, count).no_duplicates(),
        tie_class_parents(classes, old_parents, mu, count).len() <= mu,
        forall|k: int|
            0 <= k < tie_class_parents(classes, old_parents, mu, count).len() ==> in_a_class(
                classes,
                #[trigger] tie_class_parents(classes, old_parents, mu, count)[k],
            ),
    decreases count,
{
    if count > 0 {
        let chosen = tie_class_parents(classes, old_parents, mu, (count - 1) as nat);
        lemma_tie_class_parents(classes, old_parents, mu, (count - 1) as nat);
        if chosen.len() < mu {
            let class = classes[count - 1]@;
            let share = class_share(class, old_parents, chosen, mu, count == 1);
            lemma_class_share(class, old_parents, chosen, mu, count == 1);
            let all = chosen + share;
            assert forall|k: int| 0 <= k < all.len() implies in_a_class(classes, #[trigger] all[k]) by {
                if k >= chosen.len() {
                    assert(class.contains(share[k - chosen.len()]));
                    assert(classes[count - 1]@.contains(all[k]));
                } else {
                    assert(all[k] == chosen[k]);
                }
            }
        }
    }
}

/// Once `mu` parents are found, further classes give nothing.
pub proof fn lemma_tie_class_parents_full(
    classes: Seq<Vec<usize>>,
    old_parents: Seq<usize>,
    mu: nat,
    count: nat,
    later: nat,
)
    requires
        count <= later,
        tie_class_parents(classes, old_parents, mu, count).len() >= mu,
    ensures
        tie_class_parents(classes, old_parents, mu, later) == tie_class_parents(classes, old_parents, mu, count),
    decreases later,
{
    if later > count {
        lemma_tie_class_parents_full(classes, old_parents, mu, count, (later - 1) as nat);
    }
}

/// The members of `class` that neither `taken` nor `excluded` holds, each
/// once, in the order of `class`.
pub fn fresh_members_of(class: &Vec<usize>, taken: &Vec<usize>, excluded: &Vec<usize>) -> (r: Vec<usize>)
    ensures
        r@ == fresh_members(class@, taken@ + excluded@),
{
    let mut r: Vec<usize> = Vec::new();
    let ghost all = taken@ + excluded@;
    let mut i: usize = 0;
    while i < class.len()
        invariant
            i <= class@.len(),
            all == taken@ + excluded@,
            r@ == fresh_members(class@.subrange(0, i as int), all),
        decreases class@.len() - i,
    {
        let x = class[i];
        let in_taken = contains(taken, x);
        let in_excluded = contains(excluded, x);
        let in_fresh = contains(&r, x);
        proof {
            assert(class@.subrange(0, i + 1).drop_last() =~= class@.subrange(0, i as int));
            assert(class@.subrange(0, i + 1).last() == x);
            if in_taken {
                let k = choose|k: int| 0 <= k < taken@.len() && taken@[k] == x;
                assert(all[k] == x);
            }
            if in_excluded {
                let k = choose|k: int| 0 <= k < excluded@.len() && excluded@[k] == x;
                assert(all[taken@.len() + k] == x);
            }
            if all.contains(x) {
                let k = choose|k: int| 0 <= k < all.len() && all[k] == x;
                if k < taken@.len() {
                    assert(taken@[k] == x);
                } else {
                    assert(excluded@[k - taken@.len()] == x);
                }
            }
        }
        if !in_taken && !in_excluded && !in_fresh {
            r.push(x);
        }
        i += 1;
    }
    assert(class@.subrange(0, class@.len() as int) =~= class@);
    r
}

/// Neutral search over classes of equal fitness: `classes` holds, best
/// first, the individuals that share a fitness value. The classes give
/// parents in turn until `mu` are found. A class gives all of its members
/// that are no parents yet if they fill the places left exactly, or if it is
/// the best class and they fit in; otherwise it gives those of them that
/// were no parents before, as far as places are left. No individual becomes a
/// parent twice.
pub fn new_parents_by_tie_classes(classes: &Vec<Vec<usize>>, old_parents: &Vec<usize>, mu: usize) -> (r: Vec<usize>)
    ensures
        r@ == tie_class_parents(classes@, old_parents@, mu as nat, classes@.len()),
        r@.len() <= mu,
        r@.no_duplicates(),
        forall|k: int| 0 <= k < r@.len() ==> in_a_class(classes@, #[trigger] r@[k]),
{
    let mut r: Vec<usize> = Vec::new();
    let none: Vec<usize> = Vec::new();
    let mut i: usize = 0;
    while i < classes.len() && r.len() < mu
        invariant
            i <= classes@.len(),
            none@.len() == 0,
            r@ == tie_class_parents(classes@, old_parents@, mu as nat, i as nat),
            r@.len() <= mu,
        decreases classes@.len() - i,
    {
        let room = mu - r.len();
        let ghost chosen = r@;
        let mut share = fresh_members_of(&classes[i], &r, &none);
        assert(r@ + none@ =~= r@);
        if !((i == 0 && share.len() <= room) || share.len() == room) {
            share = fresh_members_of(&classes[i], &r, old_parents);
            share.truncate(room);
        }
        assert(share@ == class_share(classes@[i as int]@, old_parents@, chosen, mu as nat, i == 0));
        r.append(&mut share);
        proof {
            lemma_tie_class_parents(classes@, old_parents@, mu as nat, (i + 1) as nat);
        }
        i += 1;
    }
    proof {
        lemma_tie_class_parents(classes@, old_parents@, mu as nat, i as nat);
        if i < classes@.len() {
            lemma_tie_class_parents_full(classes@, old_parents@, mu as nat, i as nat, classes@.len());
        }
        assert forall|k: int| 0 <= k < r@.len() implies in_a_class(classes@, #[trigger] r@[k]) by {
            assert(in_a_class(classes@, tie_class_parents(classes@, old_parents@, mu as nat, i as nat)[k]));
        }
    }
    r
}

/// Random selection: `mu` individuals of `pool`, or all of them if there are
/// fewer, each individual at most once.
pub fn new_random_parents(pool: &Vec<usize>, mu: usize) -> (r: Vec<usize>)
    requires
        pool@.no_duplicates(),
    ensures
        r@.len() == if mu <= pool@.len() { mu as nat } else { pool@.len() },
        r@.no_duplicates(),
        forall|k: int| 0 <= k < r@.len() ==> pool@.contains(#[trigger] r@[k]),
{
    let r = choose_multiple(pool, mu);
    proof {
        let places = choose|places: Seq<int>| picks_from(pool@, places, r@);
        assert forall|a: int, b: int| 0 <= a < r@.len() && 0 <= b < r@.len() && a != b implies r@[a] != r@[b] by {
            assert(places[a] != places[b]);
            assert(r@[a] == pool@[places[a]] && r@[b] == pool@[places[b]]);
        }
        assert forall|k: int| 0 <= k < r@.len() implies pool@.contains(#[trigger] r@[k]) by {
            assert(pool@[places[k]] == r@[k]);
        }
    }
    r
}

} // verus!
