//! One entry point for every heuristic: a strategy is chosen by value and
//! run on a distance model with a generator that the caller passes.

use crate::model::{MdpData, SolveError};
use crate::ratio::Ratio;
use crate::selection::{is_selection, random_partition};
use crate::solver_direct::{is_direct_outcome, solve_direct_with};
use crate::solver_grasp::{greedy_randomized_construction, is_greedy_randomized};
use crate::solver_grasp::{is_grasp_outcome, solve_grasp_with, GraspConfig};
use crate::solver_local_search::{is_local_search_outcome, solve_local_search_with};
use crate::solver_local_search::LocalSearchConfig;
use crate::solver_population::{is_genetic_outcome, solve_genetic_with, GeneticConfig};
use rand::rngs::StdRng;
use vstd::prelude::*;

verus! {

/// How an initial selection is built.
#[derive(Clone, Copy, Debug)]
pub enum ConstructionMode {
    /// The first `k` elements of a uniform shuffle of the instance.
    Random,
    /// One element at a time, each drawn from the restricted candidate
    /// list of width `alpha`.
    GreedyRandomized { alpha: Ratio },
}

/// The heuristics, each with its settings.
pub enum Strategy {
    /// First improvement from a random start, to convergence.
    Direct,
    /// First improvement, best improvement or tabu search from a random
    /// start, within a budget.
    LocalSearch(LocalSearchConfig),
    /// Restarts of greedy-randomized construction and improvement.
    Grasp(GraspConfig),
    /// The genetic algorithm.
    Genetic(GeneticConfig),
}

/// What every run of `strategy` guarantees.
pub open spec fn is_outcome(
    data: &MdpData,
    strategy: &Strategy,
    res: Result<(Vec<usize>, u128), SolveError>,
) -> bool {
    match strategy {
        Strategy::Direct => is_direct_outcome(data, res),
        Strategy::LocalSearch(config) => is_local_search_outcome(data, config, res),
        Strategy::Grasp(config) => is_grasp_outcome(data, config, res),
        Strategy::Genetic(config) => is_genetic_outcome(data, config, res),
    }
}

/// The width of a greedy-randomized construction is a fraction between 0
/// and 1.
pub open spec fn mode_wf(mode: ConstructionMode) -> bool {
    match mode {
        ConstructionMode::Random => true,
        ConstructionMode::GreedyRandomized { alpha } => alpha.wf(),
    }
}

/// `sel` is a selection that the mode can build: any selection for the
/// random mode; for the greedy-randomized mode one whose every element
/// was, when it was added, in the restricted candidate list.
pub open spec fn is_constructed(data: &MdpData, mode: ConstructionMode, sel: Seq<usize>) -> bool {
    match mode {
        ConstructionMode::Random => true,
        ConstructionMode::GreedyRandomized { alpha } => is_greedy_randomized(data, alpha, sel),
    }
}

/// Builds an initial selection of `k` elements. Refuses a `k` that is
/// zero or exceeds `n`, and then an `alpha` that is no fraction between 0
/// and 1.
pub fn construct(data: &MdpData, mode: ConstructionMode, rng: &mut StdRng) -> (res: Result<
    Vec<usize>,
    SolveError,
>)
    requires
        data.wf(),
    ensures
        res is Err <==> (!data.feasible() || !mode_wf(mode)),
        res matches Err(e) ==> if !data.feasible() {
            e is InvalidSelectionSize
        } else {
            e is InvalidRatio
        },
        res matches Ok(sel) ==> is_selection(sel@, data.n, data.k) && is_constructed(
            data,
            mode,
            sel@,
        ),
{
    if data.k == 0 || data.k > data.n {
        return Err(SolveError::InvalidSelectionSize);
    }
    match mode {
        ConstructionMode::Random => {
            let parts = random_partition(data.n, data.k, rng);
            Ok(parts.0)
        },
        ConstructionMode::GreedyRandomized { alpha } => {
            if !alpha.is_valid() {
                return Err(SolveError::InvalidRatio);
            }
            greedy_randomized_construction(data, &alpha, rng)
        },
    }
}

/// Runs the chosen heuristic. Every strategy takes the same input and
/// gives the same kind of result: a selection of `k` elements with its
/// diversity, or the reason for refusing to run.
pub fn solve(data: &MdpData, strategy: &Strategy, rng: &mut StdRng) -> (res: Result<
    (Vec<usize>, u128),
    SolveError,
>)
    requires
        data.wf(),
    ensures
        is_outcome(data, strategy, res),
        res matches Ok(sol) ==> is_selection(sol.0@, data.n, data.k) && sol.1
            == crate::evaluator::diversity(data, sol.0@),
        !data.feasible() ==> (res matches Err(e) && e is InvalidSelectionSize),
{
    match strategy {
        Strategy::Direct => solve_direct_with(data, rng),
        Strategy::LocalSearch(config) => solve_local_search_with(data, config, rng),
        Strategy::Grasp(config) => solve_grasp_with(data, config, rng),
        Strategy::Genetic(config) => solve_genetic_with(data, config, rng),
    }
}

} // verus!
