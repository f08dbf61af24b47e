use vstd::prelude::*;
use rayon::iter::{IntoParallelRefIterator, ParallelIterator};
use crate::search::{chains_view, reports_exactly, search_for_bad_games, strictly_ascending};

verus! {

/// Relies on rayon's `par_iter().map(..).collect::<Vec<_>>()` over a slice: the
/// closure runs once per item, on a worker thread, and the collected vector holds
/// the results in the order of the items.
#[verifier::external_body]
fn search_in_parallel(
    pool: &Vec<u32>,
    answers: &Vec<u32>,
    number_of_guesses: usize,
    canonical: bool,
) -> (r: Vec<Vec<Vec<u32>>>)
    requires
        strictly_ascending(pool@),
    ensures
        r@.len() == answers@.len(),
        forall|i: int|
            0 <= i < answers@.len() ==> reports_exactly(
                pool@,
                answers@[i],
                number_of_guesses as nat,
                canonical,
                chains_view(#[trigger] r@[i]@),
            ),
{
    answers.par_iter().map(|a| search_for_bad_games(pool, *a, number_of_guesses, canonical)).collect()
}

/// Runs one independent search per answer mask, in parallel over a shared
/// read-only pool. Entry `i` of the result holds the bad games for `answers[i]`.
pub fn search_all_answers(
    pool: &Vec<u32>,
    answers: &Vec<u32>,
    number_of_guesses: usize,
    canonical: bool,
) -> (r: Vec<Vec<Vec<u32>>>)
    requires
        strictly_ascending(pool@),
    ensures
        r@.len() == answers@.len(),
        forall|i: int|
            0 <= i < answers@.len() ==> reports_exactly(
                pool@,
                answers@[i],
                number_of_guesses as nat,
                canonical,
                chains_view(#[trigger] r@[i]@),
            ),
{
    search_in_parallel(pool, answers, number_of_guesses, canonical)
}

} // verus!
