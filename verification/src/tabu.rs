//! Tabu search: a local search that always makes the best admitted swap,
//! improving or not, forbids the reverse of each swap for a number of
//! iterations, and remembers the best selection it has passed through.

use crate::evaluator::{calculate_diversity, diversity, lemma_diversity_bounds, lemma_sums_fit};
use crate::model::MdpData;
use crate::neighborhood::{add_gain, apply_swap, find_max_admitted, gain_at, is_max_admitted};
use crate::neighborhood::{is_tabu, lemma_max_admitted_unique, lemma_swap_keeps_partition};
use crate::neighborhood::{admitted_at, is_position, swapped};
use crate::neighborhood::{Admission, AdmissionRule, SearchOutcome, SearchStatus, TabuRecord};
use crate::selection::{is_partition, is_selection, lemma_distinct_len};
use vstd::prelude::*;

verus! {

/// The state of a tabu search between two iterations.
pub struct TabuState {
    /// The working selection and its complement.
    pub selected: Seq<usize>,
    pub unselected: Seq<usize>,
    /// The diversity of the working selection.
    pub current: int,
    /// The best selection seen so far, and its diversity.
    pub best_selected: Seq<usize>,
    pub best: int,
    /// The moves that are forbidden for the time being.
    pub records: Seq<TabuRecord>,
    /// How many iterations have been made.
    pub iteration: int,
}

/// The state in which a tabu search starts from `sel`.
pub open spec fn tabu_start(data: &MdpData, sel: Seq<usize>, unsel: Seq<usize>) -> TabuState {
    TabuState {
        selected: sel,
        unselected: unsel,
        current: diversity(data, sel),
        best_selected: sel,
        best: diversity(data, sel),
        records: Seq::empty(),
        iteration: 0,
    }
}

/// The swaps that may be made from state `s`.
pub open spec fn tabu_rule(s: TabuState) -> AdmissionRule {
    AdmissionRule::Tabu { records: s.records, iteration: s.iteration, current: s.current, best: s.best }
}

/// The last iteration at which the reverse of a move made at `iteration`
/// stays forbidden: `iteration + tenure`, capped at the largest counter
/// value. The reverse is so forbidden for the `tenure` iterations that
/// follow the move.
pub open spec fn expiry(iteration: int, tenure: usize) -> usize {
    if iteration + tenure > usize::MAX {
        usize::MAX
    } else {
        (iteration + tenure) as usize
    }
}

/// The records that are still in force at some iteration after
/// `iteration`.
pub open spec fn still_active(iteration: int) -> spec_fn(TabuRecord) -> bool {
    |r: TabuRecord| r.expires > iteration
}

/// Some swap is admitted from `s`.
pub open spec fn tabu_has_move(data: &MdpData, s: TabuState) -> bool {
    exists|i: int, j: int| is_max_admitted(data, tabu_rule(s), s.selected, s.unselected, i, j)
}

/// The swap that is made from `s`: the admitted swap of largest gain, the
/// first in scan order among equals.
pub open spec fn tabu_move(data: &MdpData, s: TabuState) -> (int, int) {
    choose|i: int, j: int| is_max_admitted(data, tabu_rule(s), s.selected, s.unselected, i, j)
}

/// The state after the swap at `(i, j)` is made from `s`. The reverse swap
/// is recorded as forbidden, expired records are dropped, and the best
/// selection is replaced when the new diversity is strictly larger.
pub open spec fn tabu_apply(data: &MdpData, tenure: usize, s: TabuState, i: int, j: int) -> TabuState {
    let (sel, unsel) = swapped(s.selected, s.unselected, i, j);
    let current = s.current + gain_at(data, s.selected, s.unselected, i, j);
    let reverse = TabuRecord {
        incoming: s.selected[i],
        outgoing: s.unselected[j],
        expires: expiry(s.iteration, tenure),
    };
    TabuState {
        selected: sel,
        unselected: unsel,
        current,
        best_selected: if current > s.best {
            sel
        } else {
            s.best_selected
        },
        best: if current > s.best {
            current
        } else {
            s.best
        },
        records: s.records.push(reverse).filter(still_active(s.iteration)),
        iteration: s.iteration + 1,
    }
}

/// The state after `budget` iterations from `s`, or after fewer when a
/// state is reached from which no swap is admitted.
pub open spec fn tabu_run(data: &MdpData, tenure: usize, s: TabuState, budget: nat) -> TabuState
    decreases budget,
{
    if budget == 0 || !tabu_has_move(data, s) {
        s
    } else {
        let (i, j) = tabu_move(data, s);
        tabu_run(data, tenure, tabu_apply(data, tenure, s, i, j), (budget - 1) as nat)
    }
}

/// The move made from a state is never a forbidden one, unless it lifts
/// the diversity strictly above the best seen so far.
pub proof fn lemma_tabu_move_is_free_or_aspired(data: &MdpData, s: TabuState)
    requires
        tabu_has_move(data, s),
    ensures
        ({
            let (i, j) = tabu_move(data, s);
            is_tabu(s.records, s.unselected[j], s.selected[i], s.iteration) ==> s.current + gain_at(
                data,
                s.selected,
                s.unselected,
                i,
                j,
            ) > s.best
        }),
{
    let (i, j) = tabu_move(data, s);
    assert(admitted_at(data, tabu_rule(s), s.selected, s.unselected, i, j));
}

/// Once a swap is made, its reverse is forbidden in the next state for
/// each of the `tenure` iterations that follow.
pub proof fn lemma_reverse_move_is_tabu(
    data: &MdpData,
    tenure: usize,
    s: TabuState,
    i: int,
    j: int,
    later: int,
)
    requires
        is_position(s.selected, s.unselected, i, j),
        0 <= s.iteration < later <= s.iteration + tenure,
        later <= usize::MAX,
    ensures
        is_tabu(
            tabu_apply(data, tenure, s, i, j).records,
            s.selected[i],
            s.unselected[j],
            later,
        ),
{
    let reverse = TabuRecord {
        incoming: s.selected[i],
        outgoing: s.unselected[j],
        expires: expiry(s.iteration, tenure),
    };
    let pushed = s.records.push(reverse);
    let kept = pushed.filter(still_active(s.iteration));
    assert(pushed[pushed.len() - 1] == reverse);
    assert(still_active(s.iteration)(reverse));
    pushed.lemma_filter_contains(still_active(s.iteration), pushed.len() - 1);
    let t = choose|t: int| 0 <= t < kept.len() && kept[t] == reverse;
    assert(kept[t].expires >= later);
}

/// A run never turns the iteration counter back, and advances it by at
/// most its budget.
pub proof fn lemma_run_advances(data: &MdpData, tenure: usize, s: TabuState, budget: nat)
    ensures
        s.iteration <= tabu_run(data, tenure, s, budget).iteration <= s.iteration + budget,
    decreases budget,
{
    if budget > 0 && tabu_has_move(data, s) {
        let (i, j) = tabu_move(data, s);
        lemma_run_advances(data, tenure, tabu_apply(data, tenure, s, i, j), (budget - 1) as nat);
    }
}

/// A record stays in the list for as long as the iteration counter has
/// not passed its expiry.
pub proof fn lemma_record_survives(
    data: &MdpData,
    tenure: usize,
    s: TabuState,
    r: TabuRecord,
    budget: nat,
)
    requires
        s.records.contains(r),
    ensures
        tabu_run(data, tenure, s, budget).iteration <= r.expires ==> tabu_run(
            data,
            tenure,
            s,
            budget,
        ).records.contains(r),
    decreases budget,
{
    if budget > 0 && tabu_has_move(data, s) {
        let (i, j) = tabu_move(data, s);
        let next = tabu_apply(data, tenure, s, i, j);
        lemma_run_advances(data, tenure, next, (budget - 1) as nat);
        if tabu_run(data, tenure, s, budget).iteration <= r.expires {
            let reverse = TabuRecord {
                incoming: s.selected[i],
                outgoing: s.unselected[j],
                expires: expiry(s.iteration, tenure),
            };
            let pushed = s.records.push(reverse);
            let t = choose|t: int| 0 <= t < s.records.len() && s.records[t] == r;
            assert(pushed[t] == r);
            assert(still_active(s.iteration)(r));
            pushed.lemma_filter_contains(still_active(s.iteration), t);
            lemma_record_survives(data, tenure, next, r, (budget - 1) as nat);
        }
    }
}

/// Once a swap is made, its reverse stays forbidden throughout the run
/// that follows, at every iteration up to `tenure` after the swap.
pub proof fn lemma_reverse_stays_tabu(
    data: &MdpData,
    tenure: usize,
    s: TabuState,
    i: int,
    j: int,
    budget: nat,
)
    requires
        is_position(s.selected, s.unselected, i, j),
        0 <= s.iteration,
    ensures
        ({
            let later = tabu_run(data, tenure, tabu_apply(data, tenure, s, i, j), budget);
            later.iteration <= s.iteration + tenure && later.iteration <= usize::MAX ==> is_tabu(
                later.records,
                s.selected[i],
                s.unselected[j],
                later.iteration,
            )
        }),
{
    let next = tabu_apply(data, tenure, s, i, j);
    let later = tabu_run(data, tenure, next, budget);
    lemma_run_advances(data, tenure, next, budget);
    if later.iteration <= s.iteration + tenure && later.iteration <= usize::MAX {
        let reverse = TabuRecord {
            incoming: s.selected[i],
            outgoing: s.unselected[j],
            expires: expiry(s.iteration, tenure),
        };
        let pushed = s.records.push(reverse);
        assert(pushed[pushed.len() - 1] == reverse);
        assert(still_active(s.iteration)(reverse));
        pushed.lemma_filter_contains(still_active(s.iteration), pushed.len() - 1);
        lemma_record_survives(data, tenure, next, reverse, budget);
        let t = choose|t: int| 0 <= t < later.records.len() && later.records[t] == reverse;
        assert(later.records[t].expires >= later.iteration);
    }
}

/// A run never undoes a swap within `tenure` iterations of making it,
/// unless undoing it lifts the diversity strictly above the best seen so
/// far: when the move made from a later state of the run is the reverse of
/// the swap at `(i, j)` made from `s`, and at most `tenure` iterations lie
/// between the two, the later move is an aspired one.
pub proof fn lemma_recent_reverse_needs_aspiration(
    data: &MdpData,
    tenure: usize,
    s: TabuState,
    i: int,
    j: int,
    budget: nat,
)
    requires
        is_position(s.selected, s.unselected, i, j),
        0 <= s.iteration,
        tabu_has_move(data, tabu_run(data, tenure, tabu_apply(data, tenure, s, i, j), budget)),
    ensures
        ({
            let later = tabu_run(data, tenure, tabu_apply(data, tenure, s, i, j), budget);
            let (a, b) = tabu_move(data, later);
            later.iteration - s.iteration <= tenure && later.iteration <= usize::MAX
                && later.unselected[b] == s.selected[i] && later.selected[a] == s.unselected[j]
                ==> later.current + gain_at(data, later.selected, later.unselected, a, b)
                > later.best
        }),
{
    let later = tabu_run(data, tenure, tabu_apply(data, tenure, s, i, j), budget);
    lemma_reverse_stays_tabu(data, tenure, s, i, j, budget);
    lemma_tabu_move_is_free_or_aspired(data, later);
}

/// The records that are still in force at some iteration after
/// `iteration`, in their order.
pub fn prune_expired(records: &Vec<TabuRecord>, iteration: usize) -> (kept: Vec<TabuRecord>)
    ensures
        kept@ == records@.filter(still_active(iteration as int)),
{
    let mut kept: Vec<TabuRecord> = Vec::new();
    let mut t: usize = 0;
    proof {
        reveal(Seq::filter);
        assert(records@.take(0) =~= Seq::<TabuRecord>::empty());
    }
    while t < records.len()
        invariant
            t <= records@.len(),
            kept@ == records@.take(t as int).filter(still_active(iteration as int)),
        decreases records@.len() - t,
    {
        let r = records[t];
        proof {
            reveal(Seq::filter);
            assert(records@.take(t + 1).drop_last() =~= records@.take(t as int));
        }
        if r.expires > iteration {
            kept.push(r);
        }
        t = t + 1;
    }
    proof {
        assert(records@.take(t as int) =~= records@);
    }
    kept
}

/// Runs a tabu search from `selected` for at most `max_iters` iterations
/// and returns the best selection it passed through. The status is
/// `Exhausted` when all `max_iters` iterations were made, and `Converged`
/// when the search stopped before that because no swap was admitted.
pub fn tabu_search(
    data: &MdpData,
    selected: Vec<usize>,
    unselected: Vec<usize>,
    max_iters: usize,
    tabu_tenure: usize,
) -> (out: SearchOutcome)
    requires
        data.wf(),
        is_partition(selected@, unselected@, data.n),
    ensures
        out.selected@ == tabu_run(
            data,
            tabu_tenure,
            tabu_start(data, selected@, unselected@),
            max_iters as nat,
        ).best_selected,
        out.diversity == tabu_run(
            data,
            tabu_tenure,
            tabu_start(data, selected@, unselected@),
            max_iters as nat,
        ).best,
        !(out.status is Running),
        out.status is Exhausted <==> tabu_run(
            data,
            tabu_tenure,
            tabu_start(data, selected@, unselected@),
            max_iters as nat,
        ).iteration == max_iters,
        out.status is Converged ==> !tabu_has_move(
            data,
            tabu_run(
                data,
                tabu_tenure,
                tabu_start(data, selected@, unselected@),
                max_iters as nat,
            ),
        ),
        is_selection(out.selected@, data.n, selected.len()),
        out.diversity == diversity(data, out.selected@),
        out.diversity >= diversity(data, selected@),
{
    let ghost sel0 = selected@;
    let ghost start = tabu_start(data, selected@, unselected@);
    let ghost bound = sel0.len() * sel0.len() * u64::MAX;
    let mut selected = selected;
    let mut unselected = unselected;
    proof {
        lemma_distinct_len(sel0, data.n);
        lemma_sums_fit(data, sel0.len() as int);
        lemma_diversity_bounds(data, sel0);
    }
    let mut current = calculate_diversity(selected.as_slice(), data);
    let mut best_selected = selected.clone();
    let mut best = current;
    let mut records: Vec<TabuRecord> = Vec::new();
    let mut iter: usize = 0;
    let mut status = SearchStatus::Running;
    while matches!(status, SearchStatus::Running)
        invariant
            data.wf(),
            is_partition(selected@, unselected@, data.n),
            selected@.len() == sel0.len(),
            sel0.len() <= data.n,
            bound == sel0.len() * sel0.len() * u64::MAX,
            bound < 0x1_0000_0000_0000_0000_0000_0000_0000_0000,
            current == diversity(data, selected@),
            is_selection(best_selected@, data.n, sel0.len() as usize),
            best == diversity(data, best_selected@),
            best >= diversity(data, sel0),
            iter <= max_iters,
            status is Exhausted ==> iter == max_iters,
            status is Converged ==> iter < max_iters && !tabu_has_move(
                data,
                TabuState {
                    selected: selected@,
                    unselected: unselected@,
                    current: current as int,
                    best_selected: best_selected@,
                    best: best as int,
                    records: records@,
                    iteration: iter as int,
                },
            ),
            tabu_run(data, tabu_tenure, start, max_iters as nat) == tabu_run(
                data,
                tabu_tenure,
                TabuState {
                    selected: selected@,
                    unselected: unselected@,
                    current: current as int,
                    best_selected: best_selected@,
                    best: best as int,
                    records: records@,
                    iteration: iter as int,
                },
                if status is Running {
                    (max_iters - iter) as nat
                } else {
                    0nat
                },
            ),
        decreases max_iters - iter + (if status is Running { 1int } else { 0int }),
    {
        let ghost state = TabuState {
            selected: selected@,
            unselected: unselected@,
            current: current as int,
            best_selected: best_selected@,
            best: best as int,
            records: records@,
            iteration: iter as int,
        };
        if iter >= max_iters {
            status = SearchStatus::Exhausted;
        } else {
            let adm = Admission::Tabu { records: &records, iteration: iter, current, best };
            let found = find_max_admitted(data, selected.as_slice(), unselected.as_slice(), &adm);
            proof {
                assert(adm@ == tabu_rule(state));
            }
            match found {
                None => {
                    proof {
                        if tabu_has_move(data, state) {
                            let (a, b) = tabu_move(data, state);
                            assert(admitted_at(
                                data,
                                tabu_rule(state),
                                state.selected,
                                state.unselected,
                                a,
                                b,
                            ));
                        }
                        assert(tabu_run(data, tabu_tenure, state, (max_iters - iter) as nat)
                            == state);
                        assert(tabu_run(data, tabu_tenure, state, 0) == state);
                    }
                    status = SearchStatus::Converged;
                },
                Some((i, j, gain)) => {
                    proof {
                        let (a, b) = tabu_move(data, state);
                        lemma_max_admitted_unique(
                            data,
                            tabu_rule(state),
                            state.selected,
                            state.unselected,
                            i as int,
                            j as int,
                            a,
                            b,
                        );
                        lemma_swap_keeps_partition(
                            data,
                            state.selected,
                            state.unselected,
                            i as int,
                            j as int,
                        );
                        lemma_diversity_bounds(
                            data,
                            swapped(state.selected, state.unselected, i as int, j as int).0,
                        );
                    }
                    let leaving = selected[i];
                    let entering = unselected[j];
                    apply_swap(&mut selected, &mut unselected, i, j);
                    current = add_gain(current, gain);
                    records.push(
                        TabuRecord {
                            incoming: leaving,
                            outgoing: entering,
                            expires: iter.saturating_add(tabu_tenure),
                        },
                    );
                    records = prune_expired(&records, iter);
                    if current > best {
                        best = current;
                        best_selected = selected.clone();
                    }
                    iter = iter + 1;
                    proof {
                        let next = TabuState {
                            selected: selected@,
                            unselected: unselected@,
                            current: current as int,
                            best_selected: best_selected@,
                            best: best as int,
                            records: records@,
                            iteration: iter as int,
                        };
                        assert(next == tabu_apply(data, tabu_tenure, state, i as int, j as int));
                        assert((max_iters - (iter - 1) - 1) as nat == (max_iters - iter) as nat);
                    }
                },
            }
        }
    }
    SearchOutcome { selected: best_selected, diversity: best, status }
}

} // verus!
