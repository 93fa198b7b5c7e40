//! The quadratic binary formulation of the problem, for an outside
//! mathematical-programming solver: maximise, over 0/1 variables `x`, the
//! sum of `d(i, j) * x_i * x_j` over all pairs minus a penalty times the
//! square of `sum(x) - k`. This module computes the coefficients of the
//! expanded objective and turns an assignment back into a selection.

use crate::evaluator::{calculate_diversity, contribution, diversity, lemma_sums_fit};
use crate::model::MdpData;
use vstd::prelude::*;

verus! {

/// How the outside solver ended.
#[derive(Clone, Copy, Debug)]
pub enum SolverStatus {
    /// A solution within the optimality gap was found.
    Optimal,
    /// The time limit was reached.
    TimeLimit,
    /// The run was interrupted.
    Interrupted,
    /// Anything else: the solver holds no usable assignment.
    Other,
}

/// The coefficient of each single variable: `penalty * (2k - 1)`.
pub open spec fn linear_term(data: &MdpData, penalty: u64) -> int {
    penalty * (2 * data.k - 1)
}

/// The coefficient of the product of two distinct variables:
/// `d(i, j) - 2 * penalty`.
pub open spec fn pair_term(data: &MdpData, penalty: u64, i: int, j: int) -> int {
    data.dist(i, j) - 2 * penalty
}

/// The constant of the objective is `-penalty * k * k`; this is its
/// magnitude.
pub open spec fn constant_size(data: &MdpData, penalty: u64) -> int {
    penalty * data.k * data.k
}

/// The sum of the pair coefficients between `c` and every member of `sel`.
pub open spec fn pair_terms_to(data: &MdpData, penalty: u64, c: usize, sel: Seq<usize>) -> int
    decreases sel.len(),
{
    if sel.len() == 0 {
        0
    } else {
        pair_terms_to(data, penalty, c, sel.drop_last()) + pair_term(
            data,
            penalty,
            c as int,
            sel.last() as int,
        )
    }
}

/// The sum of the pair coefficients over all pairs within `sel`.
pub open spec fn pair_terms(data: &MdpData, penalty: u64, sel: Seq<usize>) -> int
    decreases sel.len(),
{
    if sel.len() == 0 {
        0
    } else {
        pair_terms(data, penalty, sel.drop_last()) + pair_terms_to(
            data,
            penalty,
            sel.last(),
            sel.drop_last(),
        )
    }
}

/// The value of the expanded objective on the assignment that sets
/// exactly the variables of `sel`.
pub open spec fn objective_value(data: &MdpData, penalty: u64, sel: Seq<usize>) -> int {
    pair_terms(data, penalty, sel) + sel.len() * linear_term(data, penalty) - constant_size(
        data,
        penalty,
    )
}

/// The pair coefficients between `c` and the members of `sel` add up to
/// the contribution of `c` minus twice the penalty per member.
proof fn lemma_pair_terms_to(data: &MdpData, penalty: u64, c: usize, sel: Seq<usize>)
    ensures
        pair_terms_to(data, penalty, c, sel) == contribution(data, c, sel) - 2 * penalty * sel.len(),
    decreases sel.len(),
{
    if sel.len() > 0 {
        lemma_pair_terms_to(data, penalty, c, sel.drop_last());
        assert(2 * penalty * (sel.len() - 1) + 2 * penalty == 2 * penalty * sel.len())
            by (nonlinear_arith);
    }
}

/// The pair coefficients within `sel` add up to the diversity minus twice
/// the penalty per pair.
proof fn lemma_pair_terms(data: &MdpData, penalty: u64, sel: Seq<usize>)
    ensures
        pair_terms(data, penalty, sel) == diversity(data, sel) - penalty * sel.len() * (sel.len()
            - 1),
    decreases sel.len(),
{
    if sel.len() > 0 {
        let m = sel.len() as int;
        lemma_pair_terms(data, penalty, sel.drop_last());
        lemma_pair_terms_to(data, penalty, sel.last(), sel.drop_last());
        assert(penalty * (m - 1) * (m - 1 - 1) + 2 * penalty * (m - 1) == penalty * m * (m - 1))
            by (nonlinear_arith);
    } else {
        assert(penalty * 0 * (0 - 1) == 0) by (nonlinear_arith);
    }
}

/// The expansion is right: on the assignment that sets exactly the
/// variables of `sel`, the objective is the diversity of `sel` minus the
/// penalty times the square of `|sel| - k`. On a selection of exactly `k`
/// elements it is the diversity.
pub proof fn lemma_objective_is_penalised_diversity(data: &MdpData, penalty: u64, sel: Seq<usize>)
    ensures
        objective_value(data, penalty, sel) == diversity(data, sel) - penalty * ((sel.len()
            - data.k) * (sel.len() - data.k)),
        sel.len() == data.k ==> objective_value(data, penalty, sel) == diversity(data, sel),
{
    let m = sel.len() as int;
    let k = data.k as int;
    let p = penalty as int;
    lemma_pair_terms(data, penalty, sel);
    assert(m * (p * (2 * k - 1)) - p * m * (m - 1) - p * k * k == -(p * ((m - k) * (m - k))))
        by (nonlinear_arith);
    if m == k {
        assert(p * ((m - k) * (m - k)) == 0) by (nonlinear_arith)
            requires
                m == k,
        ;
    }
}

/// The coefficient of each single variable.
pub fn linear_coefficient(data: &MdpData, penalty: u64) -> (c: i128)
    requires
        data.wf(),
        data.k <= data.n,
    ensures
        c == linear_term(data, penalty),
{
    proof {
        lemma_sums_fit(data, data.k as int);
        assert(-0x1_0000_0000_0000_0000 <= penalty * (2 * data.k - 1) <= 2 * (data.k
            * u64::MAX)) by (nonlinear_arith)
            requires
                0 <= penalty <= u64::MAX,
                0 <= data.k,
        ;
    }
    (penalty as i128) * (2 * (data.k as i128) - 1)
}

/// The coefficient of the product of the variables of `i` and `j`.
pub fn pair_coefficient(data: &MdpData, penalty: u64, i: usize, j: usize) -> (c: i128)
    requires
        data.wf(),
        i < data.n,
        j < data.n,
    ensures
        c == pair_term(data, penalty, i as int, j as int),
{
    (data.get_dist(i, j) as i128) - 2 * (penalty as i128)
}

/// The magnitude of the constant of the objective, which is negative.
pub fn constant_magnitude(data: &MdpData, penalty: u64) -> (c: u128)
    requires
        data.wf(),
        data.k <= data.n,
    ensures
        c == constant_size(data, penalty),
{
    proof {
        let k = data.k as int;
        let n = data.n as int;
        assert(k * k <= 0xffff_ffff_ffff_ffff) by (nonlinear_arith)
            requires
                0 <= k <= n,
                n * n <= 0xffff_ffff_ffff_ffff,
        ;
        assert(penalty * (k * k) <= 0xffff_ffff_ffff_ffff * 0xffff_ffff_ffff_ffff)
            by (nonlinear_arith)
            requires
                0 <= penalty <= 0xffff_ffff_ffff_ffff,
                0 <= k * k <= 0xffff_ffff_ffff_ffff,
        ;
        assert(penalty * k * k == penalty * (k * k)) by (nonlinear_arith);
    }
    let square = (data.k as u128) * (data.k as u128);
    (penalty as u128) * square
}

/// `sel` lists, in increasing order, the positions at which `values`
/// holds `true`.
pub open spec fn is_assignment_selection(sel: Seq<usize>, values: Seq<bool>) -> bool {
    &&& forall|a: int, b: int| 0 <= a < b < sel.len() ==> sel[a] < sel[b]
    &&& forall|e: usize| #[trigger] sel.contains(e) <==> (e < values.len() && values[e as int])
}

/// The selection that an assignment stands for: the variables set to
/// one, in increasing order.
pub fn selection_from_assignment(values: &[bool]) -> (sel: Vec<usize>)
    ensures
        is_assignment_selection(sel@, values@),
        sel@.no_duplicates(),
        sel@.len() <= values@.len(),
{
    let mut sel: Vec<usize> = Vec::new();
    let mut e: usize = 0;
    while e < values.len()
        invariant
            e <= values@.len(),
            sel@.len() <= e,
            forall|a: int, b: int| 0 <= a < b < sel@.len() ==> sel@[a] < sel@[b],
            forall|t: int| 0 <= t < sel@.len() ==> sel@[t] < e,
            forall|x: usize| #[trigger] sel@.contains(x) <==> (x < e && values@[x as int]),
        decreases values@.len() - e,
    {
        let ghost before = sel@;
        if values[e] {
            sel.push(e);
        }
        proof {
            assert forall|x: usize| #[trigger]
                sel@.contains(x) <==> (x < e + 1 && values@[x as int]) by {
                if sel@.contains(x) {
                    let t = choose|t: int| 0 <= t < sel@.len() && sel@[t] == x;
                    if t < before.len() {
                        assert(before[t] == x);
                        assert(before.contains(x));
                    }
                }
                if x < e + 1 && values@[x as int] {
                    if x < e {
                        assert(before.contains(x));
                        let t = choose|t: int| 0 <= t < before.len() && before[t] == x;
                        assert(sel@[t] == x);
                    } else {
                        assert(sel@[before.len() as int] == x);
                    }
                }
            }
        }
        e = e + 1;
    }
    sel
}

/// Whether a run that ended with `status` left an assignment worth
/// reading: an optimal one, or the best found when time ran out or the
/// run was interrupted.
pub fn has_assignment(status: SolverStatus) -> (usable: bool)
    ensures
        usable == (status is Optimal || status is TimeLimit || status is Interrupted),
{
    match status {
        SolverStatus::Optimal => true,
        SolverStatus::TimeLimit => true,
        SolverStatus::Interrupted => true,
        SolverStatus::Other => false,
    }
}

/// Turns the outcome of the outside solver into a solution: the selection
/// that the assignment stands for, with its true diversity. There is no
/// solution when the solver holds no usable assignment, when the
/// assignment has not one value per element, or when it does not select
/// exactly `k` elements.
pub fn solution_from_assignment(data: &MdpData, status: SolverStatus, values: &[bool]) -> (res:
    Option<(Vec<usize>, u128)>)
    requires
        data.wf(),
    ensures
        res matches Some(sol) ==> {
            &&& is_assignment_selection(sol.0@, values@)
            &&& crate::selection::is_selection(sol.0@, data.n, data.k)
            &&& sol.1 == diversity(data, sol.0@)
        },
        res is Some <==> {
            &&& status is Optimal || status is TimeLimit || status is Interrupted
            &&& values@.len() == data.n
            &&& exists|sel: Seq<usize>| is_assignment_selection(sel, values@) && sel.len() == data.k
        },
{
    if !has_assignment(status) || values.len() != data.n {
        return None;
    }
    let sel = selection_from_assignment(values);
    proof {
        assert forall|other: Seq<usize>| is_assignment_selection(other, values@) implies other.len()
            == sel@.len() by {
            lemma_assignment_selection_unique(sel@, other, values@);
        }
        assert forall|t: int| 0 <= t < sel@.len() implies #[trigger] sel@[t] < data.n by {
            assert(sel@.contains(sel@[t]));
        }
    }
    if sel.len() != data.k {
        return None;
    }
    let value = calculate_diversity(sel.as_slice(), data);
    Some((sel, value))
}

/// An assignment stands for exactly one selection.
pub proof fn lemma_assignment_selection_unique(a: Seq<usize>, b: Seq<usize>, values: Seq<bool>)
    requires
        is_assignment_selection(a, values),
        is_assignment_selection(b, values),
    ensures
        a == b,
    decreases a.len(),
{
    if a.len() == 0 {
        if b.len() > 0 {
            assert(b.contains(b[0]));
            assert(a.contains(b[0]));
        }
        assert(a =~= b);
    } else if b.len() == 0 {
        assert(a.contains(a[0]));
        assert(b.contains(a[0]));
    } else {
        let x = a.last();
        let y = b.last();
        assert(a.contains(x) && b.contains(y));
        assert(b.contains(x) && a.contains(y));
        let tx = choose|t: int| 0 <= t < b.len() && b[t] == x;
        let ty = choose|t: int| 0 <= t < a.len() && a[t] == y;
        assert(x == y);
        let shorter = Seq::new(values.len(), |t: int| t < x && values[t]);
        assert forall|e: usize| #[trigger]
            a.drop_last().contains(e) <==> (e < shorter.len() && shorter[e as int]) by {
            if a.drop_last().contains(e) {
                let t = choose|t: int| 0 <= t < a.drop_last().len() && a.drop_last()[t] == e;
                assert(a[t] == e);
                assert(a.contains(e));
                assert(a[t] < a[a.len() - 1]);
            }
            if e < shorter.len() && shorter[e as int] {
                assert(a.contains(e));
                let t = choose|t: int| 0 <= t < a.len() && a[t] == e;
                assert(t < a.len() - 1);
                assert(a.drop_last()[t] == e);
            }
        }
        assert forall|e: usize| #[trigger]
            b.drop_last().contains(e) <==> (e < shorter.len() && shorter[e as int]) by {
            if b.drop_last().contains(e) {
                let t = choose|t: int| 0 <= t < b.drop_last().len() && b.drop_last()[t] == e;
                assert(b[t] == e);
                assert(b.contains(e));
                assert(b[t] < b[b.len() - 1]);
            }
            if e < shorter.len() && shorter[e as int] {
                assert(b.contains(e));
                let t = choose|t: int| 0 <= t < b.len() && b[t] == e;
                assert(t < b.len() - 1);
                assert(b.drop_last()[t] == e);
            }
        }
        lemma_assignment_selection_unique(a.drop_last(), b.drop_last(), shorter);
        assert(a =~= a.drop_last().push(x));
        assert(b =~= b.drop_last().push(y));
    }
}

} // verus!
