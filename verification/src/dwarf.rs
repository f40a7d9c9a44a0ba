//! Where the dwarves of a new colony land: a seeded choice of columns around the middle of
//! the map.

use vstd::prelude::*;
use rand::SeedableRng;

verus! {

/// Dwarves land in the columns from this many left of the middle to this many right of it.
pub const SPAWN_REACH: i32 = 5;

/// The number of dwarves a colony starts with.
pub const DWARF_COUNT: usize = 6;

/// No value occurs twice.
pub open spec fn all_distinct(values: Seq<i32>) -> bool {
    forall|i: int, j: int| 0 <= i < values.len() && 0 <= j < values.len() && i != j ==> values[i] != values[j]
}

/// What `IteratorRandom::choose_multiple` (rand) returns over `candidates` for `amount`,
/// drawing from a `Xoshiro256StarStar` (rand_xoshiro) seeded by `seed_from_u64(seed)`.
pub uninterp spec fn seeded_choice(seed: u64, candidates: Seq<i32>, amount: usize) -> Seq<i32>;

/// `IteratorRandom::choose_multiple` (rand) over the candidates, drawing from a
/// `Xoshiro256StarStar` (rand_xoshiro) seeded with `seed_from_u64(seed)`. The seeded
/// generator is deterministic, so the result is a function of the seed, the candidates
/// and the amount, named `seeded_choice`. As the documentation and source show: it returns
/// `amount` of the candidates, or all of them when there are fewer; each comes from a
/// position of its own among the candidates. Which ones, and in what order, is not claimed.
#[verifier::external_body]
fn choose_seeded(seed: u64, candidates: Vec<i32>, amount: usize) -> (chosen: Vec<i32>)
    ensures
        chosen@ == seeded_choice(seed, candidates@, amount),
        chosen@.len() == if candidates@.len() < amount { candidates@.len() } else { amount as nat },
        forall|i: int| 0 <= i < chosen@.len() ==> candidates@.contains(#[trigger] chosen@[i]),
        all_distinct(candidates@) ==> all_distinct(chosen@),
{
    let mut rng = rand_xoshiro::Xoshiro256StarStar::seed_from_u64(seed);
    rand::seq::IteratorRandom::choose_multiple(candidates.into_iter(), &mut rng, amount)
}

/// The columns a dwarf may land in, from `-SPAWN_REACH` to `SPAWN_REACH`, left to right.
pub open spec fn spawn_candidates() -> Seq<i32> {
    Seq::new((2 * SPAWN_REACH + 1) as nat, |i: int| (i - SPAWN_REACH) as i32)
}

/// Every column from `-SPAWN_REACH` to `SPAWN_REACH`, on both sides of the middle, is handed
/// to the seeded choice, each once, and no other column is.
pub proof fn law_every_column_in_reach_is_a_candidate(column: i32)
    ensures
        spawn_candidates().len() == 2 * SPAWN_REACH + 1,
        all_distinct(spawn_candidates()),
        spawn_candidates().contains(column) <==> -SPAWN_REACH <= column <= SPAWN_REACH,
{
    let candidates = spawn_candidates();
    if -SPAWN_REACH <= column <= SPAWN_REACH {
        assert(candidates[column + SPAWN_REACH] == column);
    }
}

/// The columns a colony's dwarves land in, counted from the middle of the map: the seeded
/// choice of `DWARF_COUNT` of the `spawn_candidates`, which are different columns from
/// `-SPAWN_REACH` to `SPAWN_REACH`.
pub fn spawn_columns(seed: u64) -> (columns: Vec<i32>)
    ensures
        columns@ == seeded_choice(seed, spawn_candidates(), DWARF_COUNT),
        columns@.len() == DWARF_COUNT,
        forall|i: int| 0 <= i < columns@.len() ==> -SPAWN_REACH <= #[trigger] columns@[i] <= SPAWN_REACH,
        all_distinct(columns@),
{
    let mut candidates: Vec<i32> = Vec::new();
    let mut column: i32 = -SPAWN_REACH;
    while column <= SPAWN_REACH
        invariant
            -SPAWN_REACH <= column <= SPAWN_REACH + 1,
            candidates@.len() == column + SPAWN_REACH,
            forall|i: int| 0 <= i < candidates@.len() ==> #[trigger] candidates@[i] == i - SPAWN_REACH,
        decreases SPAWN_REACH + 1 - column,
    {
        candidates.push(column);
        column = column + 1;
    }
    let ghost all = candidates@;
    assert(all =~= spawn_candidates());
    let columns = choose_seeded(seed, candidates, DWARF_COUNT);
    proof {
        assert forall|i: int| 0 <= i < columns@.len() implies -SPAWN_REACH <= #[trigger] columns@[i] <= SPAWN_REACH by {
            assert(all.contains(columns@[i]));
        }
    }
    columns
}

} // verus!
