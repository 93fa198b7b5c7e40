//! Local search from a random start: first improvement, best improvement,
//! or tabu search.

use crate::evaluator::{diversity, lemma_diversity_bounds};
use crate::model::{MdpData, SolveError};
use crate::neighborhood::{descend, locally_optimal, run_descent, GAIN_TOLERANCE};
use crate::neighborhood::{MoveRule, SearchOutcome};
use crate::random::try_entropy_rng;
use crate::selection::{complement, is_partition, is_selection, lemma_complement_is_partition};
use crate::selection::random_partition;
use crate::tabu::{tabu_run, tabu_search, tabu_start};
use rand::rngs::StdRng;
use vstd::prelude::*;

verus! {

/// Which local search to run, and for how many iterations at most.
pub struct LocalSearchConfig {
    pub method: LocalSearchMethod,
    pub max_iters: usize,
}

/// The move-selection strategies over the swap neighbourhood.
#[derive(Clone, Copy, Debug)]
pub enum LocalSearchMethod {
    FirstImprovement,
    BestImprovement,
    /// Tabu search; the reverse of a swap stays forbidden for the
    /// `tabu_tenure` iterations that follow it.
    TabuSearch { tabu_tenure: usize },
}

impl Default for LocalSearchConfig {
    /// Best improvement with a budget of 5000 iterations.
    fn default() -> (config: Self)
        ensures
            config.method is BestImprovement,
            config.max_iters == 5000,
    {
        LocalSearchConfig { method: LocalSearchMethod::BestImprovement, max_iters: 5000 }
    }
}

/// The selection that `method` returns when started from `sel` with a
/// budget of `max_iters` iterations.
pub open spec fn search_result(
    data: &MdpData,
    method: LocalSearchMethod,
    sel: Seq<usize>,
    unsel: Seq<usize>,
    max_iters: nat,
) -> Seq<usize> {
    match method {
        LocalSearchMethod::FirstImprovement => descend(
            data,
            MoveRule::FirstImprovement,
            sel,
            unsel,
            max_iters,
        ).selected,
        LocalSearchMethod::BestImprovement => descend(
            data,
            MoveRule::BestImprovement,
            sel,
            unsel,
            max_iters,
        ).selected,
        LocalSearchMethod::TabuSearch { tabu_tenure } => tabu_run(
            data,
            tabu_tenure,
            tabu_start(data, sel, unsel),
            max_iters,
        ).best_selected,
    }
}

/// First-improvement search from `selected`: each iteration makes the
/// first swap in scan order whose gain exceeds the tolerance.
pub fn first_improvement_search(
    data: &MdpData,
    selected: Vec<usize>,
    unselected: Vec<usize>,
    max_iters: usize,
) -> (out: SearchOutcome)
    requires
        data.wf(),
        is_partition(selected@, unselected@, data.n),
    ensures
        out.descent() == descend(
            data,
            MoveRule::FirstImprovement,
            selected@,
            unselected@,
            max_iters as nat,
        ),
        !(out.status is Running),
        is_selection(out.selected@, data.n, selected.len()),
        out.diversity == diversity(data, out.selected@),
        out.diversity >= diversity(data, selected@),
        out.status is Converged ==> locally_optimal(data, out.selected@, GAIN_TOLERANCE as int),
        out.status is Exhausted ==> out.diversity >= diversity(data, selected@) + max_iters,
{
    run_descent(data, selected, unselected, MoveRule::FirstImprovement, Some(max_iters))
}

/// Best-improvement search from `selected`: each iteration makes the swap
/// of largest gain, as long as that gain exceeds the tolerance.
pub fn best_improvement_search(
    data: &MdpData,
    selected: Vec<usize>,
    unselected: Vec<usize>,
    max_iters: usize,
) -> (out: SearchOutcome)
    requires
        data.wf(),
        is_partition(selected@, unselected@, data.n),
    ensures
        out.descent() == descend(
            data,
            MoveRule::BestImprovement,
            selected@,
            unselected@,
            max_iters as nat,
        ),
        !(out.status is Running),
        is_selection(out.selected@, data.n, selected.len()),
        out.diversity == diversity(data, out.selected@),
        out.diversity >= diversity(data, selected@),
        out.status is Converged ==> locally_optimal(data, out.selected@, GAIN_TOLERANCE as int),
        out.status is Exhausted ==> out.diversity >= diversity(data, selected@) + max_iters,
{
    run_descent(data, selected, unselected, MoveRule::BestImprovement, Some(max_iters))
}

/// Runs `method` from the given selection and its complement.
pub fn search_partition(
    data: &MdpData,
    selected: Vec<usize>,
    unselected: Vec<usize>,
    method: LocalSearchMethod,
    max_iters: usize,
) -> (out: SearchOutcome)
    requires
        data.wf(),
        is_partition(selected@, unselected@, data.n),
    ensures
        out.selected@ == search_result(data, method, selected@, unselected@, max_iters as nat),
        !(out.status is Running),
        is_selection(out.selected@, data.n, selected.len()),
        out.diversity == diversity(data, out.selected@),
        out.diversity >= diversity(data, selected@),
        !(method is TabuSearch) && out.status is Converged ==> locally_optimal(
            data,
            out.selected@,
            GAIN_TOLERANCE as int,
        ),
        !(method is TabuSearch) && out.status is Exhausted ==> out.diversity >= diversity(
            data,
            selected@,
        ) + max_iters,
{
    match method {
        LocalSearchMethod::FirstImprovement => first_improvement_search(
            data,
            selected,
            unselected,
            max_iters,
        ),
        LocalSearchMethod::BestImprovement => best_improvement_search(
            data,
            selected,
            unselected,
            max_iters,
        ),
        LocalSearchMethod::TabuSearch { tabu_tenure } => tabu_search(
            data,
            selected,
            unselected,
            max_iters,
            tabu_tenure,
        ),
    }
}

/// Runs `method` from the given selection; the scan takes the unselected
/// elements in increasing order.
pub fn local_search_from(
    data: &MdpData,
    selected: Vec<usize>,
    method: LocalSearchMethod,
    max_iters: usize,
) -> (out: SearchOutcome)
    requires
        data.wf(),
        is_selection(selected@, data.n, selected.len()),
    ensures
        exists|unsel: Seq<usize>|
            crate::selection::is_complement(unsel, selected@, data.n) && out.selected@
                == search_result(data, method, selected@, unsel, max_iters as nat),
        !(out.status is Running),
        is_selection(out.selected@, data.n, selected.len()),
        out.diversity == diversity(data, out.selected@),
        out.diversity >= diversity(data, selected@),
        !(method is TabuSearch) && out.status is Converged ==> locally_optimal(
            data,
            out.selected@,
            GAIN_TOLERANCE as int,
        ),
        !(method is TabuSearch) && out.status is Exhausted ==> out.diversity >= diversity(
            data,
            selected@,
        ) + max_iters,
{
    let unselected = complement(selected.as_slice(), data.n);
    proof {
        lemma_complement_is_partition(selected@, unselected@, data.n);
    }
    search_partition(data, selected, unselected, method, max_iters)
}

/// What every run of `solve_local_search` guarantees: an invalid `k` is
/// refused, and nothing else; a solution is a selection of `k` elements
/// with its exact diversity, and it is what the configured search returns
/// from some start; with first or best improvement it is locally optimal
/// unless the budget ran out, and then its diversity is at least the
/// budget.
pub open spec fn is_local_search_outcome(
    data: &MdpData,
    config: &LocalSearchConfig,
    res: Result<(Vec<usize>, u128), SolveError>,
) -> bool {
    &&& res is Err <==> !data.feasible()
    &&& res matches Err(e) ==> e is InvalidSelectionSize
    &&& res matches Ok(sol) ==> {
        &&& is_selection(sol.0@, data.n, data.k)
        &&& sol.1 == diversity(data, sol.0@)
        &&& exists|sel: Seq<usize>, unsel: Seq<usize>|
            is_partition(sel, unsel, data.n) && sel.len() == data.k && sol.0@ == search_result(
                data,
                config.method,
                sel,
                unsel,
                config.max_iters as nat,
            )
        &&& !(config.method is TabuSearch) ==> locally_optimal(
            data,
            sol.0@,
            GAIN_TOLERANCE as int,
        ) || sol.1 >= config.max_iters
    }
}

/// Runs the configured local search from a uniformly random selection of
/// `k` elements, drawn from a generator that the system seeds. An invalid
/// `k` is refused first; after that the run can also fail because the
/// system supplies no seed.
pub fn solve_local_search(data: &MdpData, config: &LocalSearchConfig) -> (res: Result<
    (Vec<usize>, u128),
    SolveError,
>)
    requires
        data.wf(),
    ensures
        is_local_search_outcome(data, config, res) || (data.feasible() && (res matches Err(e)
            && e is NoEntropy)),
{
    match data.check_feasible() {
        Err(e) => {
            return Err(e);
        },
        Ok(_) => {},
    }
    match try_entropy_rng() {
        Some(seeded) => {
            let mut rng = seeded;
            solve_local_search_with(data, config, &mut rng)
        },
        None => Err(SolveError::NoEntropy),
    }
}

/// Runs the configured local search from a uniformly random selection of
/// `k` elements, drawn from `rng`. Refuses an instance whose `k` is zero
/// or exceeds `n`. Whatever start is drawn, the result is the search's
/// result from that start; with first or best improvement it is locally
/// optimal unless the budget ran out, and then its diversity is at least
/// the budget.
pub fn solve_local_search_with(
    data: &MdpData,
    config: &LocalSearchConfig,
    rng: &mut StdRng,
) -> (res: Result<(Vec<usize>, u128), SolveError>)
    requires
        data.wf(),
    ensures
        is_local_search_outcome(data, config, res),
{
    match data.check_feasible() {
        Err(e) => {
            return Err(e);
        },
        Ok(_) => {},
    }
    let (selected, unselected) = random_partition(data.n, data.k, rng);
    proof {
        lemma_diversity_bounds(data, selected@);
    }
    let out = search_partition(data, selected, unselected, config.method, config.max_iters);
    Ok((out.selected, out.diversity))
}

} // verus!
