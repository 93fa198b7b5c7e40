//! The rules of the solver comparison: which solvers run on an instance
//! of a given size and with which settings, and how their results are
//! summarised.

use crate::ratio::Ratio;
use crate::solver_grasp::GraspConfig;
use crate::solver_local_search::{LocalSearchConfig, LocalSearchMethod};
use crate::solver_population::GeneticConfig;
use vstd::prelude::*;
use vstd::string::*;
use vstd::utf8::*;

verus! {

/// The byte offset at which the kept tail of an over-long name starts, so
/// that three dots and the tail take `max_len` bytes together.
pub open spec fn tail_start(filename: &str, max_len: usize) -> int {
    filename.len() - (max_len - 3)
}

/// The part of `filename` from byte offset `start` on, as characters.
pub open spec fn tail_from(filename: &str, start: int) -> Seq<char> {
    decode_utf8(filename.spec_bytes().subrange(start, filename.spec_bytes().len() as int))
}

/// A name of at most `max_len` bytes is returned unchanged. A longer one is
/// cut to three dots followed by its last `max_len - 3` bytes; the cut must
/// fall between two characters.
pub fn truncate_filename(filename: &str, max_len: usize) -> (short: String)
    requires
        filename.len() > max_len ==> max_len >= 3 && is_char_boundary(
            filename.spec_bytes(),
            tail_start(filename, max_len),
        ),
    ensures
        filename.len() <= max_len ==> short@ == filename@,
        filename.len() > max_len ==> short@ == "..."@ + tail_from(
            filename,
            tail_start(filename, max_len),
        ),
{
    if filename.len() <= max_len {
        filename.to_owned()
    } else {
        let cut: usize = filename.len() - (max_len - 3);
        let (_, tail) = filename.split_at(cut);
        proof {
            encode_utf8_decode_utf8(tail@);
        }
        String::from_str("...").concat(tail)
    }
}

/// How much solving an instance gets, by its size.
#[derive(Clone, Copy, Debug, PartialEq, Eq)]
pub enum SuiteSize {
    /// More than 1000 elements: the fast heuristics only.
    Fast,
    /// More than 500 elements: a reduced suite.
    Medium,
    /// Up to 500 elements: every solver.
    Full,
}

/// The suite for an instance of `n` elements.
pub fn select_suite(n: usize) -> (suite: SuiteSize)
    ensures
        n > 1000 ==> suite is Fast,
        500 < n <= 1000 ==> suite is Medium,
        n <= 500 ==> suite is Full,
{
    if n > 1000 {
        SuiteSize::Fast
    } else if n > 500 {
        SuiteSize::Medium
    } else {
        SuiteSize::Full
    }
}

/// The solvers that the comparison knows, in the order of the summary's
/// columns.
#[derive(Clone, Copy, Debug, PartialEq, Eq, Structural)]
pub enum SolverKind {
    Qubo,
    Grasp,
    FirstImprovement,
    BestImprovement,
    Tabu,
    Genetic,
}

/// The name under which a solver appears in results and in the summary.
pub open spec fn label_text(kind: SolverKind) -> Seq<char> {
    match kind {
        SolverKind::Qubo => "QUBO"@,
        SolverKind::Grasp => "GRASP"@,
        SolverKind::FirstImprovement => "LS-First"@,
        SolverKind::BestImprovement => "LS-Best"@,
        SolverKind::Tabu => "Tabu"@,
        SolverKind::Genetic => "GA"@,
    }
}

/// The name under which a solver appears in results and in the summary.
pub fn solver_label(kind: SolverKind) -> (label: String)
    ensures
        label@ == label_text(kind),
{
    match kind {
        SolverKind::Qubo => "QUBO".to_owned(),
        SolverKind::Grasp => "GRASP".to_owned(),
        SolverKind::FirstImprovement => "LS-First".to_owned(),
        SolverKind::BestImprovement => "LS-Best".to_owned(),
        SolverKind::Tabu => "Tabu".to_owned(),
        SolverKind::Genetic => "GA".to_owned(),
    }
}

/// The solvers in the order of the summary's columns.
pub fn summary_columns() -> (columns: Vec<SolverKind>)
    ensures
        columns@ == seq![
            SolverKind::Qubo,
            SolverKind::Grasp,
            SolverKind::FirstImprovement,
            SolverKind::BestImprovement,
            SolverKind::Tabu,
            SolverKind::Genetic,
        ],
{
    let mut columns: Vec<SolverKind> = Vec::new();
    columns.push(SolverKind::Qubo);
    columns.push(SolverKind::Grasp);
    columns.push(SolverKind::FirstImprovement);
    columns.push(SolverKind::BestImprovement);
    columns.push(SolverKind::Tabu);
    columns.push(SolverKind::Genetic);
    proof {
        assert(columns@ =~= seq![
            SolverKind::Qubo,
            SolverKind::Grasp,
            SolverKind::FirstImprovement,
            SolverKind::BestImprovement,
            SolverKind::Tabu,
            SolverKind::Genetic,
        ]);
    }
    columns
}

/// One run of a suite.
pub enum PlannedRun {
    /// The exact formulation, with a time limit in seconds.
    Qubo { time_limit_secs: u64 },
    Grasp(GraspConfig),
    LocalSearch(LocalSearchConfig),
    Genetic(GeneticConfig),
}

/// The penalty of the exact formulation, in whole distance units.
pub const QUBO_PENALTY: u64 = 1000;

/// The solver that a planned run calls.
pub open spec fn kind_of(run: PlannedRun) -> SolverKind {
    match run {
        PlannedRun::Qubo { .. } => SolverKind::Qubo,
        PlannedRun::Grasp(_) => SolverKind::Grasp,
        PlannedRun::LocalSearch(config) => match config.method {
            LocalSearchMethod::FirstImprovement => SolverKind::FirstImprovement,
            LocalSearchMethod::BestImprovement => SolverKind::BestImprovement,
            LocalSearchMethod::TabuSearch { .. } => SolverKind::Tabu,
        },
        PlannedRun::Genetic(_) => SolverKind::Genetic,
    }
}

/// The solver that a planned run calls.
pub fn run_kind(run: &PlannedRun) -> (kind: SolverKind)
    ensures
        kind == kind_of(*run),
{
    match run {
        PlannedRun::Qubo { .. } => SolverKind::Qubo,
        PlannedRun::Grasp(_) => SolverKind::Grasp,
        PlannedRun::LocalSearch(config) => match config.method {
            LocalSearchMethod::FirstImprovement => SolverKind::FirstImprovement,
            LocalSearchMethod::BestImprovement => SolverKind::BestImprovement,
            LocalSearchMethod::TabuSearch { .. } => SolverKind::Tabu,
        },
        PlannedRun::Genetic(_) => SolverKind::Genetic,
    }
}

/// A GRASP run with `alpha` of three tenths.
pub open spec fn grasp_run(iterations: usize, local_search_iters: usize) -> PlannedRun {
    PlannedRun::Grasp(
        GraspConfig { iterations, alpha: Ratio { num: 3, den: 10 }, local_search_iters },
    )
}

/// A local-search run.
pub open spec fn search_run(method: LocalSearchMethod, max_iters: usize) -> PlannedRun {
    PlannedRun::LocalSearch(LocalSearchConfig { method, max_iters })
}

/// A genetic run with crossover four times in five and mutation three
/// times in twenty.
pub open spec fn genetic_run(
    population_size: usize,
    generations: usize,
    elite_size: usize,
) -> PlannedRun {
    PlannedRun::Genetic(
        GeneticConfig {
            population_size,
            generations,
            crossover_rate: Ratio { num: 4, den: 5 },
            mutation_rate: Ratio { num: 3, den: 20 },
            elite_size,
        },
    )
}

/// The runs of each suite, in the order in which they are made.
pub open spec fn planned(suite: SuiteSize) -> Seq<PlannedRun> {
    match suite {
        SuiteSize::Full => seq![
            PlannedRun::Qubo { time_limit_secs: 300 },
            grasp_run(50, 500),
            search_run(LocalSearchMethod::FirstImprovement, 5000),
            search_run(LocalSearchMethod::BestImprovement, 5000),
            search_run(LocalSearchMethod::TabuSearch { tabu_tenure: 10 }, 1000),
            genetic_run(30, 50, 3),
        ],
        SuiteSize::Medium => seq![
            PlannedRun::Qubo { time_limit_secs: 120 },
            grasp_run(30, 300),
            search_run(LocalSearchMethod::BestImprovement, 2000),
            genetic_run(20, 30, 2),
        ],
        SuiteSize::Fast => seq![
            grasp_run(20, 200),
            search_run(LocalSearchMethod::FirstImprovement, 1000),
            genetic_run(15, 20, 2),
        ],
    }
}

/// A GRASP run with `alpha` of three tenths.
fn make_grasp_run(iterations: usize, local_search_iters: usize) -> (run: PlannedRun)
    ensures
        run == grasp_run(iterations, local_search_iters),
{
    PlannedRun::Grasp(
        GraspConfig { iterations, alpha: Ratio { num: 3, den: 10 }, local_search_iters },
    )
}

/// A local-search run.
fn make_search_run(method: LocalSearchMethod, max_iters: usize) -> (run: PlannedRun)
    ensures
        run == search_run(method, max_iters),
{
    PlannedRun::LocalSearch(LocalSearchConfig { method, max_iters })
}

/// A genetic run with crossover four times in five and mutation three
/// times in twenty.
fn make_genetic_run(population_size: usize, generations: usize, elite_size: usize) -> (run:
    PlannedRun)
    ensures
        run == genetic_run(population_size, generations, elite_size),
{
    PlannedRun::Genetic(
        GeneticConfig {
            population_size,
            generations,
            crossover_rate: Ratio { num: 4, den: 5 },
            mutation_rate: Ratio { num: 3, den: 20 },
            elite_size,
        },
    )
}

/// The runs of a suite, in the order in which they are made.
pub fn suite_plan(suite: SuiteSize) -> (plan: Vec<PlannedRun>)
    ensures
        plan@ == planned(suite),
{
    let mut plan: Vec<PlannedRun> = Vec::new();
    match suite {
        SuiteSize::Full => {
            plan.push(PlannedRun::Qubo { time_limit_secs: 300 });
            plan.push(make_grasp_run(50, 500));
            plan.push(make_search_run(LocalSearchMethod::FirstImprovement, 5000));
            plan.push(make_search_run(LocalSearchMethod::BestImprovement, 5000));
            plan.push(make_search_run(LocalSearchMethod::TabuSearch { tabu_tenure: 10 }, 1000));
            plan.push(make_genetic_run(30, 50, 3));
        },
        SuiteSize::Medium => {
            plan.push(PlannedRun::Qubo { time_limit_secs: 120 });
            plan.push(make_grasp_run(30, 300));
            plan.push(make_search_run(LocalSearchMethod::BestImprovement, 2000));
            plan.push(make_genetic_run(20, 30, 2));
        },
        SuiteSize::Fast => {
            plan.push(make_grasp_run(20, 200));
            plan.push(make_search_run(LocalSearchMethod::FirstImprovement, 1000));
            plan.push(make_genetic_run(15, 20, 2));
        },
    }
    proof {
        assert(plan@ =~= planned(suite));
    }
    plan
}

/// The outcome of one solver on one instance.
pub struct SolverResult {
    pub solver: SolverKind,
    pub diversity: u128,
    pub time_ms: u64,
    pub success: bool,
}

/// Whether a run counts as a success. A run that returned nothing has
/// failed. The exact formulation falls back to an empty selection of
/// diversity zero when the optimizer leaves no usable assignment, so it
/// counts as a success only with a positive diversity.
pub open spec fn succeeded(kind: SolverKind, outcome: Option<u128>) -> bool {
    match outcome {
        None => false,
        Some(diversity) => !(kind is Qubo) || diversity > 0,
    }
}

/// The record of a run of solver `kind` that took `time_ms` milliseconds
/// and returned the diversity `outcome`, or nothing. A run that returned
/// nothing is recorded with diversity zero.
pub fn record_result(kind: SolverKind, outcome: Option<u128>, time_ms: u64) -> (result:
    SolverResult)
    ensures
        result.solver == kind,
        result.diversity == match outcome {
            Some(diversity) => diversity,
            None => 0,
        },
        result.time_ms == time_ms,
        result.success == succeeded(kind, outcome),
{
    match outcome {
        None => SolverResult { solver: kind, diversity: 0, time_ms, success: false },
        Some(diversity) => {
            let success = match kind {
                SolverKind::Qubo => diversity > 0,
                _ => true,
            };
            SolverResult { solver: kind, diversity, time_ms, success }
        },
    }
}

/// What the summary shows for one solver on one instance.
#[derive(Clone, Copy, Debug, PartialEq, Eq)]
pub enum SummaryCell {
    /// The diversity that the solver reached.
    Value(u128),
    /// The solver ran and failed.
    Timeout,
    /// The solver was not run.
    Missing,
}

/// The cell for `kind`, from the first result of that solver if any.
pub open spec fn cell_for(results: Seq<SolverResult>, kind: SolverKind) -> SummaryCell
    decreases results.len(),
{
    if results.len() == 0 {
        SummaryCell::Missing
    } else if results.first().solver == kind {
        if results.first().success {
            SummaryCell::Value(results.first().diversity)
        } else {
            SummaryCell::Timeout
        }
    } else {
        cell_for(results.drop_first(), kind)
    }
}

/// What the summary shows for solver `kind` on an instance with the given
/// results.
pub fn summary_cell(results: &[SolverResult], kind: SolverKind) -> (cell: SummaryCell)
    ensures
        cell == cell_for(results@, kind),
{
    let mut t: usize = 0;
    proof {
        assert(results@.skip(0) =~= results@);
    }
    while t < results.len()
        invariant
            t <= results@.len(),
            cell_for(results@, kind) == cell_for(results@.skip(t as int), kind),
        decreases results@.len() - t,
    {
        proof {
            assert(results@.skip(t as int).drop_first() =~= results@.skip(t + 1));
        }
        if results[t].solver == kind {
            return if results[t].success {
                SummaryCell::Value(results[t].diversity)
            } else {
                SummaryCell::Timeout
            };
        }
        t = t + 1;
    }
    SummaryCell::Missing
}

/// Whether a result counts towards the average time of `kind`.
pub open spec fn counts_for(result: SolverResult, kind: SolverKind) -> bool {
    result.solver == kind && result.success
}

/// How many results count towards the average time of `kind`.
pub open spec fn timed_count(results: Seq<SolverResult>, kind: SolverKind) -> int
    decreases results.len(),
{
    if results.len() == 0 {
        0
    } else {
        timed_count(results.drop_last(), kind) + if counts_for(results.last(), kind) {
            1int
        } else {
            0int
        }
    }
}

/// The total time of the results that count towards the average of `kind`.
pub open spec fn timed_total(results: Seq<SolverResult>, kind: SolverKind) -> int
    decreases results.len(),
{
    if results.len() == 0 {
        0
    } else {
        timed_total(results.drop_last(), kind) + if counts_for(results.last(), kind) {
            results.last().time_ms as int
        } else {
            0int
        }
    }
}

/// The counted results are at most all of them, and their total time is
/// at most `u64::MAX` each.
proof fn lemma_timed_bounds(results: Seq<SolverResult>, kind: SolverKind)
    ensures
        0 <= timed_count(results, kind) <= results.len(),
        0 <= timed_total(results, kind) <= timed_count(results, kind) * u64::MAX,
    decreases results.len(),
{
    if results.len() > 0 {
        lemma_timed_bounds(results.drop_last(), kind);
        let c = timed_count(results.drop_last(), kind);
        assert(c * u64::MAX + u64::MAX == (c + 1) * u64::MAX) by (nonlinear_arith);
    }
}

/// The average time in milliseconds, rounded down, of the successful runs
/// of solver `kind`; `None` when there is none.
pub fn average_time_ms(results: &[SolverResult], kind: SolverKind) -> (average: Option<u64>)
    ensures
        average is Some <==> timed_count(results@, kind) > 0,
        average matches Some(a) ==> a == timed_total(results@, kind) / timed_count(
            results@,
            kind,
        ),
{
    let mut total: u128 = 0;
    let mut count: usize = 0;
    let mut t: usize = 0;
    while t < results.len()
        invariant
            t <= results@.len(),
            count == timed_count(results@.take(t as int), kind),
            total == timed_total(results@.take(t as int), kind),
        decreases results@.len() - t,
    {
        proof {
            assert(results@.take(t + 1).drop_last() =~= results@.take(t as int));
            lemma_timed_bounds(results@.take(t + 1), kind);
            assert(timed_count(results@.take(t + 1), kind) * u64::MAX <= (t + 1) * u64::MAX)
                by (nonlinear_arith)
                requires
                    timed_count(results@.take(t + 1), kind) <= t + 1,
            ;
            assert((t + 1) * u64::MAX <= usize::MAX * u64::MAX) by (nonlinear_arith)
                requires
                    t + 1 <= usize::MAX,
            ;
            assert(usize::MAX * u64::MAX <= 0xffff_ffff_ffff_ffff * 0xffff_ffff_ffff_ffff)
                by (nonlinear_arith)
                requires
                    usize::MAX <= 0xffff_ffff_ffff_ffff,
            ;
        }
        if results[t].solver == kind && results[t].success {
            total = total + results[t].time_ms as u128;
            count = count + 1;
        }
        t = t + 1;
    }
    proof {
        assert(results@.take(t as int) =~= results@);
        lemma_timed_bounds(results@, kind);
    }
    if count == 0 {
        None
    } else {
        let average = total / (count as u128);
        proof {
            let c = count as int;
            assert(total / (count as u128) <= u64::MAX) by (nonlinear_arith)
                requires
                    0 <= total <= c * u64::MAX,
                    c > 0,
                    count == c,
            ;
        }
        Some(average as u64)
    }
}

} // verus!
