//! The difference of two lists of positions.

use vstd::prelude::*;
use crate::utils::graph::{ascending, contains};

verus! {

/// Where `part` holds entries of `all`, and `rest` the others, none of the
/// three an entry twice, `rest` has as many entries as `all` has more than
/// `part`.
pub proof fn lemma_difference_len(all: Seq<usize>, part: Seq<usize>, rest: Seq<usize>)
    requires
        all.no_duplicates(),
        part.no_duplicates(),
        rest.no_duplicates(),
        forall|x: usize| part.contains(x) ==> all.contains(x),
        forall|x: usize| rest.contains(x) <==> (all.contains(x) && !part.contains(x)),
    ensures
        rest.len() == all.len() - part.len(),
{
    all.unique_seq_to_set();
    part.unique_seq_to_set();
    rest.unique_seq_to_set();
    let a = all.to_set();
    let p = part.to_set();
    assert(rest.to_set() =~= a.difference(p));
    assert(a.intersect(p) =~= p);
    vstd::set_lib::lemma_set_difference_len(a, p);
}

/// The entries of `v1` that do not stand in `v2`, each once, in the order in
/// which `v1` first names them: ascending where `v1` is.
pub fn vect_difference(v1: &Vec<usize>, v2: &Vec<usize>) -> (r: Vec<usize>)
    ensures
        forall|x: usize| r@.contains(x) <==> (v1@.contains(x) && !v2@.contains(x)),
        r@.no_duplicates(),
        ascending(v1@) ==> ascending(r@),
{
    let mut r: Vec<usize> = Vec::new();
    let mut i: usize = 0;
    while i < v1.len()
        invariant
            i <= v1@.len(),
            forall|x: usize| r@.contains(x) ==> v1@.contains(x) && !v2@.contains(x),
            forall|k: int| 0 <= k < i && !v2@.contains(v1@[k]) ==> r@.contains(#[trigger] v1@[k]),
            forall|k: int| 0 <= k < r@.len() ==> exists|j: int| 0 <= j < i && v1@[j] == #[trigger] r@[k],
            r@.no_duplicates(),
            ascending(v1@) ==> ascending(r@),
        decreases v1@.len() - i,
    {
        let x = v1[i];
        let ghost before = r@;
        if !contains(v2, x) && !contains(&r, x) {
            r.push(x);
            proof {
                assert(r@ == before.push(x));
                assert forall|y: usize| r@.contains(y) implies v1@.contains(y) && !v2@.contains(y) by {
                    let k = choose|k: int| 0 <= k < r@.len() && r@[k] == y;
                    if k < before.len() {
                        assert(before.contains(y));
                    }
                }
                assert forall|k: int| 0 <= k < i + 1 && !v2@.contains(v1@[k]) implies r@.contains(
                    #[trigger] v1@[k],
                ) by {
                    if k < i {
                        let j = choose|j: int| 0 <= j < before.len() && before[j] == v1@[k];
                        assert(r@[j] == v1@[k]);
                    } else {
                        assert(r@[before.len() as int] == x);
                    }
                }
                assert forall|k: int| 0 <= k < r@.len() implies exists|j: int|
                    0 <= j < i + 1 && v1@[j] == #[trigger] r@[k] by {
                    if k < before.len() {
                        let j = choose|j: int| 0 <= j < i && v1@[j] == before[k];
                        assert(v1@[j] == r@[k]);
                    } else {
                        assert(v1@[i as int] == r@[k]);
                    }
                }
                if ascending(v1@) {
                    assert forall|a: int, b: int| 0 <= a < b < r@.len() implies r@[a] < r@[b] by {
                        if b == before.len() {
                            let j = choose|j: int| 0 <= j < i && v1@[j] == before[a];
                            assert(v1@[j] < v1@[i as int]);
                        }
                    }
                }
            }
        } else {
            proof {
                assert forall|k: int| 0 <= k < i + 1 && !v2@.contains(v1@[k]) implies r@.contains(
                    #[trigger] v1@[k],
                ) by {}
                assert forall|k: int| 0 <= k < r@.len() implies exists|j: int|
                    0 <= j < i + 1 && v1@[j] == #[trigger] r@[k] by {
                    let j = choose|j: int| 0 <= j < i && v1@[j] == r@[k];
                    assert(v1@[j] == r@[k]);
                }
            }
        }
        i += 1;
    }
    proof {
        assert forall|x: usize| v1@.contains(x) && !v2@.contains(x) implies r@.contains(x) by {
            let k = choose|k: int| 0 <= k < v1@.len() && v1@[k] == x;
            assert(r@.contains(v1@[k]));
        }
    }
    r
}

} // verus!
