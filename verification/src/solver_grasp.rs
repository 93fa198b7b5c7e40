//! GRASP: repeated greedy-randomized construction followed by a
//! best-improvement pass, keeping the best selection over all restarts.

use crate::evaluator::{calculate_marginal_contribution, contribution, diversity, in_range};
use crate::evaluator::{lemma_contribution_bounds, lemma_diversity_bounds, lemma_sums_fit};
use crate::model::{MdpData, SolveError};
use crate::neighborhood::{descend, locally_optimal, run_descent, MoveRule, GAIN_TOLERANCE};
use crate::random::{random_below, try_entropy_rng};
use crate::ratio::Ratio;
use crate::selection::{complement, identity_order, is_complement, is_partition, is_selection};
use crate::selection::{lemma_complement_is_partition, lemma_distinct_len, lemma_move_keeps_partition};
use crate::selection::lemma_partition_len;
use rand::rngs::StdRng;
use vstd::prelude::*;

verus! {

/// How many restarts to make, how greedy each construction is, and the
/// budget of each improvement pass. `alpha` is the width of the restricted
/// candidate list: 0 is pure greedy, 1 is pure random.
pub struct GraspConfig {
    pub iterations: usize,
    pub alpha: Ratio,
    pub local_search_iters: usize,
}

impl Default for GraspConfig {
    /// A hundred restarts, `alpha` of three tenths, a thousand iterations
    /// per improvement pass.
    fn default() -> (config: Self)
        ensures
            config.iterations == 100,
            config.alpha.num == 3 && config.alpha.den == 10,
            config.local_search_iters == 1000,
    {
        GraspConfig { iterations: 100, alpha: Ratio { num: 3, den: 10 }, local_search_iters: 1000 }
    }
}

/// `e` is an element of the instance that `sel` lacks.
pub open spec fn is_available(sel: Seq<usize>, n: usize, e: usize) -> bool {
    e < n && !sel.contains(e)
}

/// `hi` and `lo` are available candidates of largest and of smallest
/// marginal contribution to `sel`.
pub open spec fn is_extremes(data: &MdpData, sel: Seq<usize>, hi: usize, lo: usize) -> bool {
    &&& is_available(sel, data.n, hi)
    &&& is_available(sel, data.n, lo)
    &&& forall|e: usize| #[trigger]
        is_available(sel, data.n, e) ==> contribution(data, lo, sel) <= contribution(data, e, sel)
            <= contribution(data, hi, sel)
}

/// A contribution `c` is within `alpha` of the way down from the largest
/// contribution `hi` to the smallest `lo`: `c >= hi - alpha * (hi - lo)`.
pub open spec fn within_threshold(c: int, hi: int, lo: int, alpha: Ratio) -> bool {
    (hi - c) * alpha.den <= alpha.num * (hi - lo)
}

/// `cand` belongs to the restricted candidate list for extending `sel`.
pub open spec fn is_rcl_member(data: &MdpData, alpha: Ratio, sel: Seq<usize>, cand: usize) -> bool {
    &&& is_available(sel, data.n, cand)
    &&& exists|hi: usize, lo: usize|
        is_extremes(data, sel, hi, lo) && within_threshold(
            contribution(data, cand, sel),
            contribution(data, hi, sel),
            contribution(data, lo, sel),
            alpha,
        )
}

/// Every element of `sel` was, when it was added, a member of the
/// restricted candidate list for the elements before it.
pub open spec fn is_greedy_randomized(data: &MdpData, alpha: Ratio, sel: Seq<usize>) -> bool {
    forall|t: int| 0 <= t < sel.len() ==> is_rcl_member(data, alpha, sel.take(t), #[trigger] sel[t])
}

/// With `alpha` zero the restricted candidate list holds exactly the
/// candidates of largest marginal contribution.
pub proof fn lemma_zero_alpha_is_greedy(data: &MdpData, alpha: Ratio, sel: Seq<usize>, cand: usize)
    requires
        alpha.wf(),
        alpha.num == 0,
    ensures
        is_rcl_member(data, alpha, sel, cand) <==> (is_available(sel, data.n, cand) && forall|
            e: usize,
        | #[trigger]
            is_available(sel, data.n, e) ==> contribution(data, e, sel) <= contribution(
                data,
                cand,
                sel,
            )),
{
    let c = contribution(data, cand, sel);
    if is_rcl_member(data, alpha, sel, cand) {
        let (hi, lo) = choose|hi: usize, lo: usize|
            is_extremes(data, sel, hi, lo) && within_threshold(
                c,
                contribution(data, hi, sel),
                contribution(data, lo, sel),
                alpha,
            );
        let h = contribution(data, hi, sel);
        assert(is_available(sel, data.n, cand));
        assert(h <= c) by (nonlinear_arith)
            requires
                (h - c) * alpha.den <= alpha.num * (h - contribution(data, lo, sel)),
                alpha.num == 0,
                alpha.den > 0,
        ;
        assert forall|e: usize| #[trigger] is_available(sel, data.n, e) implies contribution(
            data,
            e,
            sel,
        ) <= c by {}
    }
    if is_available(sel, data.n, cand) && (forall|e: usize| #[trigger]
        is_available(sel, data.n, e) ==> contribution(data, e, sel) <= c) {
        lemma_extremes_exist(data, sel, cand);
        let (hi, lo) = choose|hi: usize, lo: usize| is_extremes(data, sel, hi, lo);
        let h = contribution(data, hi, sel);
        assert(is_available(sel, data.n, hi));
        assert(h == c);
        assert(within_threshold(c, h, contribution(data, lo, sel), alpha)) by (nonlinear_arith)
            requires
                h == c,
                alpha.num == 0,
        ;
    }
}

/// With `alpha` one the restricted candidate list holds every available
/// candidate.
pub proof fn lemma_unit_alpha_is_uniform(data: &MdpData, alpha: Ratio, sel: Seq<usize>, cand: usize)
    requires
        alpha.wf(),
        alpha.num == alpha.den,
    ensures
        is_rcl_member(data, alpha, sel, cand) <==> is_available(sel, data.n, cand),
{
    if is_available(sel, data.n, cand) {
        lemma_extremes_exist(data, sel, cand);
        let (hi, lo) = choose|hi: usize, lo: usize| is_extremes(data, sel, hi, lo);
        let c = contribution(data, cand, sel);
        let h = contribution(data, hi, sel);
        let l = contribution(data, lo, sel);
        assert(l <= c <= h);
        assert(within_threshold(c, h, l, alpha)) by (nonlinear_arith)
            requires
                l <= c <= h,
                alpha.num == alpha.den,
        ;
    }
}

/// Among the elements below `upto`, when one is available, there is an
/// available one of largest and one of smallest contribution.
proof fn lemma_extremes_below(data: &MdpData, sel: Seq<usize>, upto: usize) -> (r: (usize, usize))
    requires
        upto <= data.n,
        exists|e: usize| e < upto && is_available(sel, data.n, e),
    ensures
        r.0 < upto && is_available(sel, data.n, r.0),
        r.1 < upto && is_available(sel, data.n, r.1),
        forall|e: usize|
            e < upto && #[trigger] is_available(sel, data.n, e) ==> contribution(data, r.1, sel)
                <= contribution(data, e, sel) <= contribution(data, r.0, sel),
    decreases upto,
{
    let last = (upto - 1) as usize;
    if exists|e: usize| e < last && is_available(sel, data.n, e) {
        let (hi, lo) = lemma_extremes_below(data, sel, last);
        if is_available(sel, data.n, last) {
            let c = contribution(data, last, sel);
            let h = if c > contribution(data, hi, sel) { last } else { hi };
            let l = if c < contribution(data, lo, sel) { last } else { lo };
            assert forall|e: usize| e < upto && #[trigger] is_available(sel, data.n, e) implies
                contribution(data, l, sel) <= contribution(data, e, sel) <= contribution(
                data,
                h,
                sel,
            ) by {
                if e < last {
                    assert(is_available(sel, data.n, e));
                }
            }
            (h, l)
        } else {
            (hi, lo)
        }
    } else {
        let w = choose|e: usize| e < upto && is_available(sel, data.n, e);
        assert(w == last);
        (last, last)
    }
}

/// When some candidate is available, extremes exist.
pub proof fn lemma_extremes_exist(data: &MdpData, sel: Seq<usize>, cand: usize)
    requires
        is_available(sel, data.n, cand),
    ensures
        exists|hi: usize, lo: usize| is_extremes(data, sel, hi, lo),
{
    let (hi, lo) = lemma_extremes_below(data, sel, data.n);
    assert(is_extremes(data, sel, hi, lo));
}

/// The positions in `available` of the members of the restricted
/// candidate list for extending `selected`, in increasing order.
pub fn restricted_candidates(
    data: &MdpData,
    selected: &[usize],
    available: &[usize],
    alpha: &Ratio,
) -> (rcl: Vec<usize>)
    requires
        data.wf(),
        alpha.wf(),
        is_partition(selected@, available@, data.n),
        available@.len() > 0,
    ensures
        rcl@.len() > 0,
        forall|a: int, b: int| 0 <= a < b < rcl@.len() ==> rcl@[a] < rcl@[b],
        forall|t: int| 0 <= t < rcl@.len() ==> #[trigger] rcl@[t] < available@.len(),
        forall|p: int|
            0 <= p < available@.len() ==> (rcl@.contains(p as usize) <==> is_rcl_member(
                data,
                *alpha,
                selected@,
                #[trigger] available@[p],
            )),
{
    let ghost sel = selected@;
    let ghost avail = available@;
    let ghost cap = sel.len() * u64::MAX;
    proof {
        lemma_distinct_len(sel, data.n);
        lemma_sums_fit(data, sel.len() as int);
    }
    let mut contributions: Vec<u128> = Vec::new();
    let mut hi_pos: usize = 0;
    let mut lo_pos: usize = 0;
    let mut p: usize = 0;
    while p < available.len()
        invariant
            data.wf(),
            sel == selected@,
            avail == available@,
            in_range(sel, data.n),
            in_range(avail, data.n),
            sel.len() <= data.n,
            cap == sel.len() * u64::MAX,
            p <= avail.len(),
            contributions@.len() == p,
            forall|t: int|
                0 <= t < p ==> #[trigger] contributions@[t] == contribution(data, avail[t], sel),
            forall|t: int| 0 <= t < p ==> 0 <= #[trigger] contributions@[t] <= cap,
            p > 0 ==> hi_pos < p && lo_pos < p,
            forall|t: int|
                0 <= t < p ==> contributions@[lo_pos as int] <= #[trigger] contributions@[t]
                    <= contributions@[hi_pos as int],
        decreases avail.len() - p,
    {
        let c = calculate_marginal_contribution(available[p], selected, data);
        proof {
            lemma_contribution_bounds(data, avail[p as int], sel);
        }
        if p == 0 || c > contributions[hi_pos] {
            hi_pos = p;
        }
        if p == 0 || c < contributions[lo_pos] {
            lo_pos = p;
        }
        contributions.push(c);
        p = p + 1;
    }
    let c_max = contributions[hi_pos];
    let c_min = contributions[lo_pos];
    let spread = c_max - c_min;
    proof {
        let hi = avail[hi_pos as int];
        let lo = avail[lo_pos as int];
        assert(avail.contains(hi) && avail.contains(lo));
        assert forall|e: usize| #[trigger] is_available(sel, data.n, e) implies contribution(
            data,
            lo,
            sel,
        ) <= contribution(data, e, sel) <= contribution(data, hi, sel) by {
            assert(avail.contains(e));
            let t = choose|t: int| 0 <= t < avail.len() && avail[t] == e;
            assert(contributions@[t] == contribution(data, e, sel));
        }
        assert(is_extremes(data, sel, hi, lo));
        assert(cap * 0xffff_ffff < 0x1_0000_0000_0000_0000_0000_0000_0000_0000) by (nonlinear_arith)
            requires
                cap < 0x1_0000_0000_0000_0000_0000_0000,
        ;
        assert(alpha.num * spread <= cap * 0xffff_ffff) by (nonlinear_arith)
            requires
                0 <= spread <= cap,
                0 <= alpha.num <= 0xffff_ffff,
        ;
    }
    let allowance = (alpha.num as u128) * spread;
    let mut rcl: Vec<usize> = Vec::new();
    let mut q: usize = 0;
    while q < available.len()
        invariant
            data.wf(),
            alpha.wf(),
            sel == selected@,
            avail == available@,
            is_partition(sel, avail, data.n),
            contributions@.len() == avail.len(),
            forall|t: int|
                0 <= t < avail.len() ==> #[trigger] contributions@[t] == contribution(
                    data,
                    avail[t],
                    sel,
                ),
            forall|t: int| 0 <= t < avail.len() ==> 0 <= #[trigger] contributions@[t] <= c_max,
            hi_pos < avail.len(),
            lo_pos < avail.len(),
            c_max == contributions@[hi_pos as int],
            c_min == contributions@[lo_pos as int],
            is_extremes(data, sel, avail[hi_pos as int], avail[lo_pos as int]),
            cap == sel.len() * u64::MAX,
            c_max <= cap,
            cap * 0xffff_ffff < 0x1_0000_0000_0000_0000_0000_0000_0000_0000,
            allowance == alpha.num * (c_max - c_min),
            q <= avail.len(),
            forall|a: int, b: int| 0 <= a < b < rcl@.len() ==> rcl@[a] < rcl@[b],
            forall|t: int| 0 <= t < rcl@.len() ==> #[trigger] rcl@[t] < q,
            forall|t: int|
                0 <= t < q ==> (rcl@.contains(t as usize) <==> is_rcl_member(
                    data,
                    *alpha,
                    sel,
                    #[trigger] avail[t],
                )),
            q > hi_pos ==> rcl@.len() > 0,
        decreases avail.len() - q,
    {
        let gap = c_max - contributions[q];
        proof {
            assert(gap * alpha.den <= cap * 0xffff_ffff) by (nonlinear_arith)
                requires
                    0 <= gap <= cap,
                    0 <= alpha.den <= 0xffff_ffff,
            ;
        }
        let ghost before = rcl@;
        let member = gap * (alpha.den as u128) <= allowance;
        proof {
            let cand = avail[q as int];
            let c = contribution(data, cand, sel);
            let hi = avail[hi_pos as int];
            let lo = avail[lo_pos as int];
            assert(avail.contains(cand));
            assert(is_available(sel, data.n, cand));
            assert(member == within_threshold(c, c_max as int, c_min as int, *alpha));
            if is_rcl_member(data, *alpha, sel, cand) {
                let (h2, l2) = choose|h2: usize, l2: usize|
                    is_extremes(data, sel, h2, l2) && within_threshold(
                        c,
                        contribution(data, h2, sel),
                        contribution(data, l2, sel),
                        *alpha,
                    );
                assert(is_available(sel, data.n, h2) && is_available(sel, data.n, l2));
                assert(is_available(sel, data.n, hi) && is_available(sel, data.n, lo));
                assert(contribution(data, h2, sel) == c_max);
                assert(contribution(data, l2, sel) == c_min);
            }
            assert(member == is_rcl_member(data, *alpha, sel, cand));
            if q == hi_pos {
                assert(gap == 0);
                assert(member) by (nonlinear_arith)
                    requires
                        gap == 0,
                        member == (gap * alpha.den <= allowance),
                        allowance >= 0,
                ;
            }
        }
        if member {
            rcl.push(q);
        }
        proof {
            assert forall|t: int| 0 <= t < q + 1 implies (rcl@.contains(t as usize)
                <==> is_rcl_member(data, *alpha, sel, #[trigger] avail[t])) by {
                if rcl@.contains(t as usize) {
                    let w = choose|w: int| 0 <= w < rcl@.len() && rcl@[w] == t as usize;
                    if w < before.len() {
                        assert(before[w] == t as usize);
                        assert(before.contains(t as usize));
                    }
                }
                if t < q && before.contains(t as usize) {
                    let w = choose|w: int| 0 <= w < before.len() && before[w] == t as usize;
                    assert(rcl@[w] == t as usize);
                }
                if t == q && member {
                    assert(rcl@[before.len() as int] == q);
                }
            }
        }
        q = q + 1;
    }
    rcl
}

/// Builds a selection of `k` elements one at a time. For each slot, every
/// unselected element is rated by its marginal contribution to the
/// elements chosen so far, and one member of the restricted candidate list
/// is drawn uniformly. Fails when the candidates run out before `k`
/// elements are chosen, which happens exactly when `k` exceeds `n`.
pub fn greedy_randomized_construction(data: &MdpData, alpha: &Ratio, rng: &mut StdRng) -> (res:
    Result<Vec<usize>, SolveError>)
    requires
        data.wf(),
        alpha.wf(),
    ensures
        res is Err <==> data.k > data.n,
        res matches Err(e) ==> e is PoolExhausted,
        res matches Ok(sel) ==> is_selection(sel@, data.n, data.k) && is_greedy_randomized(
            data,
            *alpha,
            sel@,
        ),
{
    let mut selected: Vec<usize> = Vec::new();
    let mut available = identity_order(data.n);
    proof {
        assert forall|e: usize| e < data.n implies (#[trigger] selected@.contains(e)
            <==> !available@.contains(e)) by {
            assert(available@[e as int] == e);
        }
        assert(is_partition(selected@, available@, data.n));
    }
    let mut slot: usize = 0;
    while slot < data.k
        invariant
            data.wf(),
            alpha.wf(),
            slot <= data.k,
            selected@.len() == slot,
            is_partition(selected@, available@, data.n),
            is_greedy_randomized(data, *alpha, selected@),
            slot <= data.n,
        decreases data.k - slot,
    {
        proof {
            lemma_partition_len(selected@, available@, data.n);
        }
        if available.len() == 0 {
            return Err(SolveError::PoolExhausted);
        }
        let rcl = restricted_candidates(data, selected.as_slice(), available.as_slice(), alpha);
        let pick = random_below(rng, rcl.len());
        let pos = rcl[pick];
        let ghost before = selected@;
        let ghost pool = available@;
        proof {
            assert(rcl@.contains(pos));
            assert(is_rcl_member(data, *alpha, before, pool[pos as int]));
            lemma_move_keeps_partition(before, pool, data.n, pos as int);
        }
        let chosen = available.remove(pos);
        selected.push(chosen);
        proof {
            assert forall|t: int| 0 <= t < selected@.len() implies is_rcl_member(
                data,
                *alpha,
                selected@.take(t),
                #[trigger] selected@[t],
            ) by {
                if t < before.len() {
                    assert(selected@.take(t) =~= before.take(t));
                    assert(selected@[t] == before[t]);
                } else {
                    assert(selected@.take(t) =~= before);
                }
            }
        }
        slot = slot + 1;
    }
    proof {
        lemma_distinct_len(selected@, data.n);
    }
    Ok(selected)
}

/// The improvement pass of a restart: best improvement from `selected`,
/// scanning the unselected elements in increasing order, until no swap
/// improves or `max_iters` swaps have been made.
pub fn local_search(data: &MdpData, selected: Vec<usize>, max_iters: usize) -> (improved: (
    Vec<usize>,
    u128,
))
    requires
        data.wf(),
        is_selection(selected@, data.n, selected.len()),
    ensures
        is_improved(data, selected@, max_iters, improved.0@),
        is_selection(improved.0@, data.n, selected.len()),
        improved.1 == diversity(data, improved.0@),
        improved.1 >= diversity(data, selected@),
        locally_optimal(data, improved.0@, GAIN_TOLERANCE as int) || improved.1 >= diversity(
            data,
            selected@,
        ) + max_iters,
{
    let unselected = complement(selected.as_slice(), data.n);
    proof {
        lemma_complement_is_partition(selected@, unselected@, data.n);
    }
    let out = run_descent(data, selected, unselected, MoveRule::BestImprovement, Some(max_iters));
    (out.selected, out.diversity)
}

/// `improved` is what best improvement reaches from `start` within
/// `max_iters` iterations, with the unselected elements in increasing
/// order.
pub open spec fn is_improved(
    data: &MdpData,
    start: Seq<usize>,
    max_iters: usize,
    improved: Seq<usize>,
) -> bool {
    exists|unsel: Seq<usize>|
        is_complement(unsel, start, data.n) && improved == descend(
            data,
            MoveRule::BestImprovement,
            start,
            unsel,
            max_iters as nat,
        ).selected
}

/// The better of the incumbent and a candidate: the candidate replaces the
/// incumbent only when its diversity is strictly larger, so of two equals
/// the one found first stays.
pub fn keep_better(incumbent: Option<(Vec<usize>, u128)>, candidate: (Vec<usize>, u128)) -> (kept: (
    Vec<usize>,
    u128,
))
    ensures
        kept == match incumbent {
            Some(held) => if candidate.1 > held.1 {
                candidate
            } else {
                held
            },
            None => candidate,
        },
{
    match incumbent {
        Some(held) => {
            if candidate.1 > held.1 {
                candidate
            } else {
                held
            }
        },
        None => candidate,
    }
}

/// What every run of `solve_grasp` guarantees. It refuses, in this
/// order, a `k` that is zero or exceeds `n`, an `alpha` that is no
/// fraction between 0 and 1, and a configuration without restarts, and
/// nothing else. A solution is a selection of `k` elements with its exact
/// diversity; it is the improvement of some greedy-randomized
/// construction; it is locally optimal unless the improvement pass ran
/// out of budget, and then its diversity is at least that budget; and it
/// is the best of the solutions of all restarts.
pub open spec fn is_grasp_outcome(
    data: &MdpData,
    config: &GraspConfig,
    res: Result<(Vec<usize>, u128), SolveError>,
) -> bool {
    &&& res is Err <==> (!data.feasible() || !config.alpha.wf() || config.iterations == 0)
    &&& res matches Err(e) ==> if !data.feasible() {
        e is InvalidSelectionSize
    } else if !config.alpha.wf() {
        e is InvalidRatio
    } else {
        e is NoRestarts
    }
    &&& res matches Ok(sol) ==> is_grasp_solution(data, config, sol) && is_best_of_restarts(
        data,
        config,
        sol,
    )
}

/// `sol` is a valid solution that a restart can produce.
pub open spec fn is_grasp_solution(
    data: &MdpData,
    config: &GraspConfig,
    sol: (Vec<usize>, u128),
) -> bool {
    &&& is_selection(sol.0@, data.n, data.k)
    &&& sol.1 == diversity(data, sol.0@)
    &&& exists|start: Seq<usize>|
        is_selection(start, data.n, data.k) && is_greedy_randomized(data, config.alpha, start)
            && is_improved(data, start, config.local_search_iters, sol.0@)
    &&& locally_optimal(data, sol.0@, GAIN_TOLERANCE as int) || sol.1
        >= config.local_search_iters
}

/// `sol` is the best of the solutions of `config.iterations` restarts, and
/// the first of them among equally good ones.
pub open spec fn is_best_of_restarts(
    data: &MdpData,
    config: &GraspConfig,
    sol: (Vec<usize>, u128),
) -> bool {
    exists|candidates: Seq<(Vec<usize>, u128)>, w: int|
        {
            &&& candidates.len() == config.iterations
            &&& forall|t: int|
                0 <= t < candidates.len() ==> is_grasp_solution(
                    data,
                    config,
                    #[trigger] candidates[t],
                )
            &&& 0 <= w < candidates.len()
            &&& sol == candidates[w]
            &&& forall|t: int| 0 <= t < candidates.len() ==> (#[trigger] candidates[t]).1 <= sol.1
            &&& forall|t: int| 0 <= t < w ==> (#[trigger] candidates[t]).1 < sol.1
        }
}

/// The instance and the configuration are ones that GRASP accepts.
pub open spec fn grasp_accepts(data: &MdpData, config: &GraspConfig) -> bool {
    data.feasible() && config.alpha.wf() && config.iterations > 0
}

/// Refuses, in this order, a `k` that is zero or exceeds `n`, an `alpha`
/// that is no fraction between 0 and 1, and a configuration without
/// restarts.
pub fn check_grasp(data: &MdpData, config: &GraspConfig) -> (checked: Result<(), SolveError>)
    ensures
        checked is Ok <==> grasp_accepts(data, config),
        checked matches Err(e) ==> if !data.feasible() {
            e is InvalidSelectionSize
        } else if !config.alpha.wf() {
            e is InvalidRatio
        } else {
            e is NoRestarts
        },
{
    if data.k == 0 || data.k > data.n {
        Err(SolveError::InvalidSelectionSize)
    } else if !config.alpha.is_valid() {
        Err(SolveError::InvalidRatio)
    } else if config.iterations == 0 {
        Err(SolveError::NoRestarts)
    } else {
        Ok(())
    }
}

/// Runs GRASP with a generator that the system seeds. An invalid instance
/// or configuration is refused first; after that the run can also fail
/// because the system supplies no seed.
pub fn solve_grasp(data: &MdpData, config: &GraspConfig) -> (res: Result<(Vec<usize>, u128), SolveError>)
    requires
        data.wf(),
    ensures
        is_grasp_outcome(data, config, res) || (grasp_accepts(data, config) && (
        res matches Err(e) && e is NoEntropy)),
{
    match check_grasp(data, config) {
        Err(e) => {
            return Err(e);
        },
        Ok(_) => {},
    }
    match try_entropy_rng() {
        Some(seeded) => {
            let mut rng = seeded;
            solve_grasp_with(data, config, &mut rng)
        },
        None => Err(SolveError::NoEntropy),
    }
}

/// Runs `config.iterations` restarts, each a greedy-randomized
/// construction followed by an improvement pass, and returns the best
/// selection found with its diversity; of two equally good ones, the one
/// found first. Refuses, in this order, a `k` that is zero or exceeds `n`,
/// an `alpha` that is no fraction between 0 and 1, and a configuration
/// without restarts.
pub fn solve_grasp_with(data: &MdpData, config: &GraspConfig, rng: &mut StdRng) -> (res: Result<
    (Vec<usize>, u128),
    SolveError,
>)
    requires
        data.wf(),
    ensures
        is_grasp_outcome(data, config, res),
{
    match check_grasp(data, config) {
        Err(e) => {
            return Err(e);
        },
        Ok(_) => {},
    }
    let mut best: Option<(Vec<usize>, u128)> = None;
    let mut restart: usize = 0;
    let ghost mut candidates: Seq<(Vec<usize>, u128)> = Seq::empty();
    let ghost mut w: int = 0;
    while restart < config.iterations
        invariant
            data.wf(),
            data.feasible(),
            config.alpha.wf(),
            restart <= config.iterations,
            restart > 0 ==> best is Some,
            candidates.len() == restart,
            forall|t: int|
                0 <= t < candidates.len() ==> is_grasp_solution(
                    data,
                    config,
                    #[trigger] candidates[t],
                ),
            best matches Some(sol) ==> {
                &&& 0 <= w < candidates.len()
                &&& sol == candidates[w]
                &&& forall|t: int|
                    0 <= t < candidates.len() ==> (#[trigger] candidates[t]).1 <= sol.1
                &&& forall|t: int| 0 <= t < w ==> (#[trigger] candidates[t]).1 < sol.1
            },
        decreases config.iterations - restart,
    {
        let built = greedy_randomized_construction(data, &config.alpha, rng);
        match built {
            Ok(start) => {
                proof {
                    lemma_diversity_bounds(data, start@);
                }
                let candidate = local_search(data, start, config.local_search_iters);
                let ghost held = best;
                let ghost fresh = candidate;
                let kept = keep_better(best, candidate);
                proof {
                    let grown = candidates.push(fresh);
                    if kept == fresh && (held is None || fresh.1 > (held->0).1) {
                        w = restart as int;
                    }
                    assert forall|t: int| 0 <= t < grown.len() implies is_grasp_solution(
                        data,
                        config,
                        #[trigger] grown[t],
                    ) by {
                        if t < candidates.len() {
                            assert(grown[t] == candidates[t]);
                        }
                    }
                    assert forall|t: int| 0 <= t < grown.len() implies (#[trigger] grown[t]).1
                        <= kept.1 by {
                        if t < candidates.len() {
                            assert(grown[t] == candidates[t]);
                        }
                    }
                    assert forall|t: int| 0 <= t < w implies (#[trigger] grown[t]).1 < kept.1 by {
                        if t < candidates.len() {
                            assert(grown[t] == candidates[t]);
                        }
                    }
                    assert(kept == grown[w]);
                    candidates = grown;
                }
                best = Some(kept);
            },
            Err(e) => {
                return Err(e);
            },
        }
        restart = restart + 1;
    }
    match best {
        Some(sol) => {
            proof {
                assert(is_grasp_solution(data, config, candidates[w]));
            }
            Ok(sol)
        },
        None => Err(SolveError::NoRestarts),
    }
}

} // verus!
