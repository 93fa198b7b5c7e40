//! The direct solver: first improvement from a random start, run until no
//! swap improves.

use crate::evaluator::diversity;
use crate::model::{MdpData, SolveError};
use crate::neighborhood::{is_descent_result, locally_optimal, run_descent, Descent, MoveRule};
use crate::neighborhood::GAIN_TOLERANCE;
use crate::random::try_entropy_rng;
use crate::selection::{is_partition, is_selection, random_partition};
use rand::rngs::StdRng;
use vstd::prelude::*;

verus! {

/// What every run of `solve_direct` guarantees: an invalid `k` is refused,
/// and nothing else; a solution is a selection of `k` elements with its
/// exact diversity, it is where first improvement converges from some
/// start, and so it is locally optimal.
pub open spec fn is_direct_outcome(data: &MdpData, res: Result<(Vec<usize>, u128), SolveError>) -> bool {
    &&& res is Err <==> !data.feasible()
    &&& res matches Err(e) ==> e is InvalidSelectionSize
    &&& res matches Ok(sol) ==> {
        &&& is_selection(sol.0@, data.n, data.k)
        &&& sol.1 == diversity(data, sol.0@)
        &&& locally_optimal(data, sol.0@, GAIN_TOLERANCE as int)
        &&& exists|sel: Seq<usize>, unsel: Seq<usize>|
            is_partition(sel, unsel, data.n) && sel.len() == data.k && is_descent_result(
                data,
                MoveRule::FirstImprovement,
                sel,
                unsel,
                None,
                Descent { selected: sol.0@, converged: true },
            )
    }
}

/// Draws a uniformly random selection of `k` elements from a generator
/// that the system seeds, and improves it by first improvement until it
/// converges. An invalid `k` is refused first; after that the run can also
/// fail because the system supplies no seed.
pub fn solve_direct(data: &MdpData) -> (res: Result<(Vec<usize>, u128), SolveError>)
    requires
        data.wf(),
    ensures
        is_direct_outcome(data, res) || (data.feasible() && (res matches Err(e)
            && e is NoEntropy)),
{
    match data.check_feasible() {
        Err(e) => {
            return Err(e);
        },
        Ok(_) => {},
    }
    match try_entropy_rng() {
        Some(seeded) => {
            let mut rng = seeded;
            solve_direct_with(data, &mut rng)
        },
        None => Err(SolveError::NoEntropy),
    }
}

/// Draws a uniformly random selection of `k` elements from `rng` and
/// improves it by first improvement until it converges. Refuses an
/// instance whose `k` is zero or exceeds `n`. Whatever start is drawn, the
/// result is where the descent from that start converges, and so is
/// locally optimal.
pub fn solve_direct_with(data: &MdpData, rng: &mut StdRng) -> (res: Result<
    (Vec<usize>, u128),
    SolveError,
>)
    requires
        data.wf(),
    ensures
        is_direct_outcome(data, res),
{
    match data.check_feasible() {
        Err(e) => {
            return Err(e);
        },
        Ok(_) => {},
    }
    let (selected, unselected) = random_partition(data.n, data.k, rng);
    let out = run_descent(data, selected, unselected, MoveRule::FirstImprovement, None);
    Ok((out.selected, out.diversity))
}

} // verus!
