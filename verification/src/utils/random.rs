//! Random draws. Everything the library decides at random goes through
//! `random_below`; what is done with a draw is verified for every value of it.

use vstd::prelude::*;
use rand::Rng;
use rand::seq::SliceRandom;

verus! {

/// Calls `gen_range(0..upper)` on `rand::thread_rng()`. The contract claims
/// only that the draw lies in the range asked for, which is what `gen_range`
/// documents; an empty range, on which it panics, is left out.
#[verifier::external_body]
pub(crate) fn random_below(upper: usize) -> (r: usize)
    requires
        upper > 0,
    ensures
        r < upper,
{
    rand::thread_rng().gen_range(0..upper)
}

/// `chosen` holds entries of `list` taken at the places `places`, no place
/// twice.
pub open spec fn picks_from(list: Seq<usize>, places: Seq<int>, chosen: Seq<usize>) -> bool {
    &&& places.len() == chosen.len()
    &&& forall|k: int| 0 <= k < places.len() ==> 0 <= (#[trigger] places[k]) < list.len() && chosen[k] == list[places[k]]
    &&& forall|i: int, j: int| 0 <= i < j < places.len() ==> places[i] != places[j]
}

/// Calls `SliceRandom::choose_multiple` on the slice of `list` with
/// `rand::thread_rng()` and collects the chosen entries. The contract claims
/// what its documentation states: `amount` entries, or all if there are
/// fewer, chosen without repetition of a place, in any order.
#[verifier::external_body]
pub(crate) fn choose_multiple(list: &Vec<usize>, amount: usize) -> (r: Vec<usize>)
    ensures
        r@.len() == if amount <= list@.len() { amount as nat } else { list@.len() },
        exists|places: Seq<int>| picks_from(list@, places, r@),
{
    list.choose_multiple(&mut rand::thread_rng(), amount).cloned().collect()
}

/// The number of equally likely outcomes of the draw that decides whether a
/// node is mutated.
pub const MUTATION_DRAWS: u32 = 16_777_216;

/// Whether the outcome `draw` of the `MUTATION_DRAWS` equally likely ones
/// calls for a mutation at a chance of `threshold` in `MUTATION_DRAWS`: the
/// first `threshold` outcomes do.
pub fn mutation_drawn(draw: usize, threshold: u32) -> (b: bool)
    ensures
        b == (draw < threshold),
{
    draw < threshold as usize
}

/// Decides at random whether to mutate: true for `threshold` of the
/// `MUTATION_DRAWS` outcomes, so never for 0 and always from `MUTATION_DRAWS` on.
pub fn draw_mutation(threshold: u32) -> (b: bool)
    ensures
        threshold == 0 ==> !b,
        threshold >= MUTATION_DRAWS ==> b,
{
    let draw = random_below(16_777_216);
    mutation_drawn(draw, threshold)
}

/// The number that stands at place `draw` when `excluded` is left out of the
/// natural numbers.
pub open spec fn spec_skip_excluded(draw: int, excluded: int) -> int {
    if draw < excluded {
        draw
    } else {
        draw + 1
    }
}

/// Maps a draw among `upper_range - 1` numbers onto the numbers below
/// `upper_range` other than `excluded`.
pub fn skip_excluded(draw: usize, excluded: usize) -> (r: usize)
    requires
        draw < usize::MAX,
    ensures
        r == spec_skip_excluded(draw as int, excluded as int),
        r != excluded,
{
    if draw < excluded {
        draw
    } else {
        draw + 1
    }
}

/// A number below `upper_range` other than `excluded`, each with the same
/// chance; 0 where `upper_range` leaves no choice.
pub fn gen_random_number(excluded: usize, upper_range: usize) -> (r: usize)
    ensures
        upper_range <= 1 ==> r == 0,
        upper_range > 1 ==> r < upper_range && r != excluded,
{
    if upper_range <= 1 {
        return 0;
    }
    if excluded < upper_range {
        let draw = random_below(upper_range - 1);
        skip_excluded(draw, excluded)
    } else {
        random_below(upper_range)
    }
}

} // verus!
