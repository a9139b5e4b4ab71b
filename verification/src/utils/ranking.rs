//! Decisions that depend on the order of fitness values or weights only:
//! minimum and maximum, the greedy choice of a column, and the record of the
//! best ant. The values enter as keys, whole numbers ordered as the values
//! are.

use vstd::prelude::*;

verus! {

/// `r` is the first place of the smallest key.
pub open spec fn is_first_argmin(keys: Seq<u64>, r: int) -> bool {
    &&& 0 <= r < keys.len()
    &&& forall|j: int| 0 <= j < keys.len() ==> keys[r] <= keys[j]
    &&& forall|j: int| 0 <= j < r ==> keys[r] < keys[j]
}

/// `r` is the first place of the largest key.
pub open spec fn is_first_argmax(keys: Seq<u64>, r: int) -> bool {
    &&& 0 <= r < keys.len()
    &&& forall|j: int| 0 <= j < keys.len() ==> keys[j] <= keys[r]
    &&& forall|j: int| 0 <= j < r ==> keys[j] < keys[r]
}

/// `r` is the last place of the largest key.
pub open spec fn is_last_argmax(keys: Seq<u64>, r: int) -> bool {
    &&& 0 <= r < keys.len()
    &&& forall|j: int| 0 <= j < keys.len() ==> keys[j] <= keys[r]
    &&& forall|j: int| r < j < keys.len() ==> keys[j] < keys[r]
}

/// The first place of the smallest key.
pub fn get_argmin(keys: &Vec<u64>) -> (r: usize)
    requires
        keys@.len() > 0,
    ensures
        is_first_argmin(keys@, r as int),
{
    let mut r: usize = 0;
    let mut j: usize = 1;
    while j < keys.len()
        invariant
            1 <= j <= keys@.len(),
            r < j,
            forall|k: int| 0 <= k < j ==> keys@[r as int] <= keys@[k],
            forall|k: int| 0 <= k < r ==> keys@[r as int] < keys@[k],
        decreases keys@.len() - j,
    {
        if keys[j] < keys[r] {
            r = j;
        }
        j += 1;
    }
    r
}

/// The last place of the largest key, whatever the keys stand for. The class
/// of a sample is found by `get_first_argmax`, the greedy choice among
/// weights by `greedy_choice`.
pub fn get_argmax(keys: &Vec<u64>) -> (r: usize)
    requires
        keys@.len() > 0,
    ensures
        is_last_argmax(keys@, r as int),
{
    let mut r: usize = 0;
    let mut j: usize = 1;
    while j < keys.len()
        invariant
            1 <= j <= keys@.len(),
            r < j,
            forall|k: int| 0 <= k < j ==> keys@[k] <= keys@[r as int],
            forall|k: int| r < k < j ==> keys@[k] < keys@[r as int],
        decreases keys@.len() - j,
    {
        if keys[j] >= keys[r] {
            r = j;
        }
        j += 1;
    }
    r
}

/// The first place of the largest key: the class of a sample whose outputs
/// have these keys.
pub fn get_first_argmax(keys: &Vec<u64>) -> (r: usize)
    requires
        keys@.len() > 0,
    ensures
        is_first_argmax(keys@, r as int),
{
    let mut r: usize = 0;
    let mut j: usize = 1;
    while j < keys.len()
        invariant
            1 <= j <= keys@.len(),
            r < j,
            forall|k: int| 0 <= k < j ==> keys@[k] <= keys@[r as int],
            forall|k: int| 0 <= k < r ==> keys@[k] < keys@[r as int],
        decreases keys@.len() - j,
    {
        if keys[j] > keys[r] {
            r = j;
        }
        j += 1;
    }
    r
}

/// The smallest key.
pub fn get_min(keys: &Vec<u64>) -> (m: u64)
    requires
        keys@.len() > 0,
    ensures
        keys@.contains(m),
        forall|j: int| 0 <= j < keys@.len() ==> m <= keys@[j],
{
    let r = get_argmin(keys);
    assert(keys@[r as int] == keys@[r as int]);
    keys[r]
}

/// The largest key.
pub fn get_max(keys: &Vec<u64>) -> (m: u64)
    requires
        keys@.len() > 0,
    ensures
        keys@.contains(m),
        forall|j: int| 0 <= j < keys@.len() ==> keys@[j] <= m,
{
    let r = get_argmax(keys);
    assert(keys@[r as int] == keys@[r as int]);
    keys[r]
}

/// The greedy choice in a row of weights: the column of the largest weight,
/// the last of them where several are as large. A column whose weight is
/// not above `zero`, the key of the weight zero, stands for a choice that is
/// not allowed and is never chosen: a row without a weight above `zero`, an
/// empty one too, gets no choice.
pub fn greedy_choice(weights: &Vec<u64>, zero: u64) -> (choice: Option<usize>)
    ensures
        match choice {
            Some(c) => is_last_argmax(weights@, c as int) && weights@[c as int] > zero,
            None => forall|j: int| 0 <= j < weights@.len() ==> weights@[j] <= zero,
        },
{
    if weights.len() == 0 {
        return None;
    }
    let c = get_argmax(weights);
    if weights[c] > zero {
        Some(c)
    } else {
        None
    }
}

/// The greedy ant: for every row of a table the greedy choice in that row,
/// none for a row without a weight above `zero`.
pub fn calculate_greedy(pheromone_table: &Vec<Vec<u64>>, zero: u64) -> (greedy: Vec<Option<usize>>)
    ensures
        greedy@.len() == pheromone_table@.len(),
        forall|i: int|
            0 <= i < greedy@.len() ==> match #[trigger] greedy@[i] {
                Some(c) => is_last_argmax(pheromone_table@[i]@, c as int) && pheromone_table@[i]@[c as int] > zero,
                None => forall|j: int| 0 <= j < pheromone_table@[i]@.len() ==> pheromone_table@[i]@[j] <= zero,
            },
{
    let mut greedy: Vec<Option<usize>> = Vec::with_capacity(pheromone_table.len());
    let mut i: usize = 0;
    while i < pheromone_table.len()
        invariant
            i <= pheromone_table@.len(),
            greedy@.len() == i,
            forall|k: int|
                0 <= k < i ==> match #[trigger] greedy@[k] {
                    Some(c) => is_last_argmax(pheromone_table@[k]@, c as int) && pheromone_table@[k]@[c as int]
                        > zero,
                    None => forall|j: int| 0 <= j < pheromone_table@[k]@.len() ==> pheromone_table@[k]@[j] <= zero,
                },
        decreases pheromone_table@.len() - i,
    {
        greedy.push(greedy_choice(&pheromone_table[i], zero));
        i += 1;
    }
    greedy
}

/// The best ant met so far, with the key of its fitness.
pub struct BestAnt {
    pub key: Option<u64>,
    pub ant: Vec<usize>,
}

impl BestAnt {
    /// No ant is recorded.
    pub fn new() -> (r: Self)
        ensures
            r.key is None,
            r.ant@.len() == 0,
    {
        BestAnt { key: None, ant: Vec::new() }
    }

    /// Records `ant` if no ant is recorded or its fitness is better than the
    /// recorded one, and says whether it did.
    pub fn offer(&mut self, key: u64, ant: &Vec<usize>) -> (recorded: bool)
        ensures
            recorded == (old(self).key matches Some(best) ==> key < best),
            recorded ==> final(self).key == Some(key) && final(self).ant@ == ant@,
            !recorded ==> final(self).key == old(self).key && final(self).ant@ == old(self).ant@,
    {
        let better = match self.key {
            Some(best) => key < best,
            None => true,
        };
        if better {
            self.key = Some(key);
            let copy = ant.clone();
            assert(copy@ =~= ant@);
            self.ant = copy;
        }
        better
    }
}

} // verus!
