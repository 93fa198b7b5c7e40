//! The swap neighbourhood shared by every local search: replace one
//! selected element by one unselected element. Candidate swaps are scanned
//! row by row, selected position first, unselected position second.

use crate::evaluator::{calculate_diversity, calculate_swap_gain, diversity, in_range, swap_gain};
use crate::evaluator::{lemma_diversity_bounds, lemma_sums_fit};
use crate::evaluator::lemma_swap_gain_is_diversity_change;
use crate::model::MdpData;
use crate::selection::{is_partition, is_selection};
use vstd::prelude::*;

verus! {

/// A gain must exceed this to count as an improvement. Gains are exact
/// integers, so a swap between two selections of equal diversity has gain
/// zero and is never taken as improving.
pub const GAIN_TOLERANCE: i128 = 0;

/// A move that is forbidden for a while: bringing `incoming` into the
/// selection in exchange for `outgoing`, up to and including the iteration
/// numbered `expires`.
#[derive(Clone, Copy, Debug)]
pub struct TabuRecord {
    pub incoming: usize,
    pub outgoing: usize,
    pub expires: usize,
}

/// Which candidate swaps a scan may return.
pub enum Admission<'a> {
    /// Swaps whose gain exceeds [`GAIN_TOLERANCE`].
    Improving,
    /// Swaps that are not tabu at `iteration`, and tabu swaps that would
    /// lift the diversity from `current` to above `best`.
    Tabu { records: &'a Vec<TabuRecord>, iteration: usize, current: u128, best: u128 },
}

/// What an [`Admission`] stands for in contracts.
pub enum AdmissionRule {
    Improving,
    Tabu { records: Seq<TabuRecord>, iteration: int, current: int, best: int },
}

impl<'a> View for Admission<'a> {
    type V = AdmissionRule;

    open spec fn view(&self) -> AdmissionRule {
        match self {
            Admission::Improving => AdmissionRule::Improving,
            Admission::Tabu { records, iteration, current, best } => AdmissionRule::Tabu {
                records: records@,
                iteration: *iteration as int,
                current: *current as int,
                best: *best as int,
            },
        }
    }
}

/// Some record forbids bringing `incoming` in for `outgoing` at `iteration`.
pub open spec fn is_tabu(
    records: Seq<TabuRecord>,
    incoming: usize,
    outgoing: usize,
    iteration: int,
) -> bool {
    exists|t: int|
        0 <= t < records.len() && (#[trigger] records[t]).incoming == incoming
            && records[t].outgoing == outgoing && records[t].expires >= iteration
}

impl AdmissionRule {
    /// Whether a swap with the given gain, bringing `entering` in for
    /// `leaving`, may be returned.
    pub open spec fn admits(self, entering: usize, leaving: usize, gain: int) -> bool {
        match self {
            AdmissionRule::Improving => gain > GAIN_TOLERANCE,
            AdmissionRule::Tabu { records, iteration, current, best } => !is_tabu(
                records,
                entering,
                leaving,
                iteration,
            ) || current + gain > best,
        }
    }
}

/// `(i, j)` names a selected position and an unselected position.
pub open spec fn is_position(sel: Seq<usize>, unsel: Seq<usize>, i: int, j: int) -> bool {
    0 <= i < sel.len() && 0 <= j < unsel.len()
}

/// The scan reaches `(a, b)` before `(i, j)`.
pub open spec fn scans_before(a: int, b: int, i: int, j: int) -> bool {
    a < i || (a == i && b < j)
}

/// The gain of replacing the selected element at `i` by the unselected
/// element at `j`.
pub open spec fn gain_at(data: &MdpData, sel: Seq<usize>, unsel: Seq<usize>, i: int, j: int) -> int {
    swap_gain(data, sel[i], unsel[j], sel)
}

/// The swap at `(i, j)` is one that `adm` admits.
pub open spec fn admitted_at(
    data: &MdpData,
    adm: AdmissionRule,
    sel: Seq<usize>,
    unsel: Seq<usize>,
    i: int,
    j: int,
) -> bool {
    adm.admits(unsel[j], sel[i], gain_at(data, sel, unsel, i, j))
}

/// No swap of the neighbourhood is admitted.
pub open spec fn none_admitted(
    data: &MdpData,
    adm: AdmissionRule,
    sel: Seq<usize>,
    unsel: Seq<usize>,
) -> bool {
    forall|a: int, b: int|
        is_position(sel, unsel, a, b) ==> !#[trigger] admitted_at(data, adm, sel, unsel, a, b)
}

/// `(i, j)` is the first admitted swap in scan order.
pub open spec fn is_first_admitted(
    data: &MdpData,
    adm: AdmissionRule,
    sel: Seq<usize>,
    unsel: Seq<usize>,
    i: int,
    j: int,
) -> bool {
    &&& is_position(sel, unsel, i, j)
    &&& admitted_at(data, adm, sel, unsel, i, j)
    &&& forall|a: int, b: int|
        is_position(sel, unsel, a, b) && scans_before(a, b, i, j) ==> !#[trigger] admitted_at(
            data,
            adm,
            sel,
            unsel,
            a,
            b,
        )
}

/// `(i, j)` is the admitted swap of largest gain, and the first such in
/// scan order.
pub open spec fn is_max_admitted(
    data: &MdpData,
    adm: AdmissionRule,
    sel: Seq<usize>,
    unsel: Seq<usize>,
    i: int,
    j: int,
) -> bool {
    &&& is_position(sel, unsel, i, j)
    &&& admitted_at(data, adm, sel, unsel, i, j)
    &&& forall|a: int, b: int|
        is_position(sel, unsel, a, b) && #[trigger] admitted_at(data, adm, sel, unsel, a, b) ==> {
            &&& gain_at(data, sel, unsel, a, b) <= gain_at(data, sel, unsel, i, j)
            &&& scans_before(a, b, i, j) ==> gain_at(data, sel, unsel, a, b) < gain_at(
                data,
                sel,
                unsel,
                i,
                j,
            )
        }
}

/// What a scan knows after it has looked at every position before `(i, j)`:
/// `found` is the first admitted swap of largest gain among them, or `None`
/// when none of them is admitted.
pub open spec fn max_so_far(
    data: &MdpData,
    adm: AdmissionRule,
    sel: Seq<usize>,
    unsel: Seq<usize>,
    i: int,
    j: int,
    found: Option<(usize, usize, i128)>,
) -> bool {
    match found {
        None => forall|a: int, b: int|
            is_position(sel, unsel, a, b) && scans_before(a, b, i, j) ==> !#[trigger] admitted_at(
                data,
                adm,
                sel,
                unsel,
                a,
                b,
            ),
        Some((bi, bj, g)) => {
            &&& is_position(sel, unsel, bi as int, bj as int)
            &&& scans_before(bi as int, bj as int, i, j)
            &&& admitted_at(data, adm, sel, unsel, bi as int, bj as int)
            &&& g == gain_at(data, sel, unsel, bi as int, bj as int)
            &&& forall|a: int, b: int|
                is_position(sel, unsel, a, b) && scans_before(a, b, i, j) && #[trigger] admitted_at(
                    data,
                    adm,
                    sel,
                    unsel,
                    a,
                    b,
                ) ==> {
                    &&& gain_at(data, sel, unsel, a, b) <= g
                    &&& scans_before(a, b, bi as int, bj as int) ==> gain_at(data, sel, unsel, a, b)
                        < g
                }
        },
    }
}

/// Whether `current + gain` exceeds `best`, computed without overflow.
pub fn exceeds_best(current: u128, gain: i128, best: u128) -> (above: bool)
    ensures
        above == (current + gain > best),
{
    if best >= current {
        gain > 0 && (gain as u128) > best - current
    } else if gain == i128::MIN {
        0x8000_0000_0000_0000_0000_0000_0000_0000u128 < current - best
    } else {
        gain >= 0 || ((-gain) as u128) < current - best
    }
}

/// Whether some record forbids bringing `incoming` in for `outgoing` at
/// `iteration`.
pub fn check_tabu(
    records: &Vec<TabuRecord>,
    incoming: usize,
    outgoing: usize,
    iteration: usize,
) -> (tabu: bool)
    ensures
        tabu == is_tabu(records@, incoming, outgoing, iteration as int),
{
    let mut t: usize = 0;
    while t < records.len()
        invariant
            t <= records@.len(),
            forall|u: int|
                0 <= u < t ==> !((#[trigger] records@[u]).incoming == incoming
                    && records@[u].outgoing == outgoing && records@[u].expires >= iteration),
        decreases records@.len() - t,
    {
        let r = records[t];
        if r.incoming == incoming && r.outgoing == outgoing && r.expires >= iteration {
            return true;
        }
        t = t + 1;
    }
    false
}

impl<'a> Admission<'a> {
    /// Whether a swap with the given gain, bringing `entering` in for
    /// `leaving`, may be returned.
    pub fn check(&self, entering: usize, leaving: usize, gain: i128) -> (ok: bool)
        ensures
            ok == self@.admits(entering, leaving, gain as int),
    {
        match self {
            Admission::Improving => gain > GAIN_TOLERANCE,
            Admission::Tabu { records, iteration, current, best } => {
                if exceeds_best(*current, gain, *best) {
                    true
                } else {
                    !check_tabu(records, entering, leaving, *iteration)
                }
            },
        }
    }
}

/// The gain of the swap at `(i, j)`.
pub fn gain_of(data: &MdpData, selected: &[usize], unselected: &[usize], i: usize, j: usize) -> (gain:
    i128)
    requires
        data.wf(),
        in_range(selected@, data.n),
        in_range(unselected@, data.n),
        selected@.len() <= data.n,
        is_position(selected@, unselected@, i as int, j as int),
    ensures
        gain == gain_at(data, selected@, unselected@, i as int, j as int),
{
    calculate_swap_gain(selected[i], unselected[j], selected, data)
}

/// Scans the whole neighbourhood and returns the admitted swap of largest
/// gain with its gain, the first in scan order among equals, or `None`
/// when no swap is admitted.
pub fn find_max_admitted(
    data: &MdpData,
    selected: &[usize],
    unselected: &[usize],
    adm: &Admission,
) -> (found: Option<(usize, usize, i128)>)
    requires
        data.wf(),
        in_range(selected@, data.n),
        in_range(unselected@, data.n),
        selected@.len() <= data.n,
    ensures
        match found {
            Some((i, j, gain)) => is_max_admitted(
                data,
                adm@,
                selected@,
                unselected@,
                i as int,
                j as int,
            ) && gain == gain_at(data, selected@, unselected@, i as int, j as int),
            None => none_admitted(data, adm@, selected@, unselected@),
        },
{
    let mut found: Option<(usize, usize, i128)> = None;
    let mut i: usize = 0;
    while i < selected.len()
        invariant
            data.wf(),
            in_range(selected@, data.n),
            in_range(unselected@, data.n),
            selected@.len() <= data.n,
            i <= selected@.len(),
            max_so_far(data, adm@, selected@, unselected@, i as int, 0, found),
        decreases selected@.len() - i,
    {
        let mut j: usize = 0;
        while j < unselected.len()
            invariant
                data.wf(),
                in_range(selected@, data.n),
                in_range(unselected@, data.n),
                selected@.len() <= data.n,
                i < selected@.len(),
                j <= unselected@.len(),
                max_so_far(data, adm@, selected@, unselected@, i as int, j as int, found),
            decreases unselected@.len() - j,
        {
            let gain = gain_of(data, selected, unselected, i, j);
            if adm.check(unselected[j], selected[i], gain) {
                let better = match found {
                    None => true,
                    Some((_, _, g)) => gain > g,
                };
                if better {
                    found = Some((i, j, gain));
                }
            }
            j = j + 1;
        }
        i = i + 1;
    }
    found
}

/// Scans the neighbourhood in order and stops at the first admitted swap,
/// which it returns with its gain; `None` when no swap is admitted.
pub fn find_first_admitted(
    data: &MdpData,
    selected: &[usize],
    unselected: &[usize],
    adm: &Admission,
) -> (found: Option<(usize, usize, i128)>)
    requires
        data.wf(),
        in_range(selected@, data.n),
        in_range(unselected@, data.n),
        selected@.len() <= data.n,
    ensures
        match found {
            Some((i, j, gain)) => is_first_admitted(
                data,
                adm@,
                selected@,
                unselected@,
                i as int,
                j as int,
            ) && gain == gain_at(data, selected@, unselected@, i as int, j as int),
            None => none_admitted(data, adm@, selected@, unselected@),
        },
{
    let mut i: usize = 0;
    while i < selected.len()
        invariant
            data.wf(),
            in_range(selected@, data.n),
            in_range(unselected@, data.n),
            selected@.len() <= data.n,
            i <= selected@.len(),
            forall|a: int, b: int|
                is_position(selected@, unselected@, a, b) && a < i ==> !#[trigger] admitted_at(
                    data,
                    adm@,
                    selected@,
                    unselected@,
                    a,
                    b,
                ),
        decreases selected@.len() - i,
    {
        let mut j: usize = 0;
        while j < unselected.len()
            invariant
                data.wf(),
                in_range(selected@, data.n),
                in_range(unselected@, data.n),
                selected@.len() <= data.n,
                i < selected@.len(),
                j <= unselected@.len(),
                forall|a: int, b: int|
                    is_position(selected@, unselected@, a, b) && scans_before(a, b, i as int, j as int)
                        ==> !#[trigger] admitted_at(data, adm@, selected@, unselected@, a, b),
            decreases unselected@.len() - j,
        {
            let gain = gain_of(data, selected, unselected, i, j);
            if adm.check(unselected[j], selected[i], gain) {
                return Some((i, j, gain));
            }
            j = j + 1;
        }
        i = i + 1;
    }
    None
}

/// How a local search picks its move among the improving swaps.
#[derive(Clone, Copy, Debug)]
pub enum MoveRule {
    /// The first improving swap in scan order.
    FirstImprovement,
    /// The improving swap of largest gain.
    BestImprovement,
}

/// Where a local search stands. It starts in `Running` and ends in one of
/// the other two.
#[derive(Clone, Copy, Debug, PartialEq, Eq)]
pub enum SearchStatus {
    /// Moves are still being made.
    Running,
    /// The last scan found no move to make.
    Converged,
    /// The iteration budget ran out.
    Exhausted,
}

/// What a local search returns: a selection, its diversity, and why the
/// search stopped.
pub struct SearchOutcome {
    pub selected: Vec<usize>,
    pub diversity: u128,
    pub status: SearchStatus,
}

/// The selection and its complement after the swap at `(i, j)`.
pub open spec fn swapped(sel: Seq<usize>, unsel: Seq<usize>, i: int, j: int) -> (
    Seq<usize>,
    Seq<usize>,
) {
    (sel.update(i, unsel[j]), unsel.update(j, sel[i]))
}

/// `(i, j)` is the move that `rule` makes from `sel`.
pub open spec fn is_chosen(
    data: &MdpData,
    rule: MoveRule,
    sel: Seq<usize>,
    unsel: Seq<usize>,
    i: int,
    j: int,
) -> bool {
    match rule {
        MoveRule::FirstImprovement => is_first_admitted(
            data,
            AdmissionRule::Improving,
            sel,
            unsel,
            i,
            j,
        ),
        MoveRule::BestImprovement => is_max_admitted(data, AdmissionRule::Improving, sel, unsel, i, j),
    }
}

/// `rule` has a move to make from `sel`.
pub open spec fn has_move(data: &MdpData, rule: MoveRule, sel: Seq<usize>, unsel: Seq<usize>) -> bool {
    exists|i: int, j: int| is_chosen(data, rule, sel, unsel, i, j)
}

/// The move that `rule` makes from `sel`, when it has one.
pub open spec fn the_move(data: &MdpData, rule: MoveRule, sel: Seq<usize>, unsel: Seq<usize>) -> (
    int,
    int,
) {
    choose|i: int, j: int| is_chosen(data, rule, sel, unsel, i, j)
}

/// A selection, and whether the search that reached it stopped for want
/// of a move.
pub struct Descent {
    pub selected: Seq<usize>,
    pub converged: bool,
}

/// The descent from `sel` under `rule` with `budget` iterations: each
/// iteration makes the rule's move, and the descent stops early, converged,
/// at the first selection from which the rule has no move.
pub open spec fn descend(
    data: &MdpData,
    rule: MoveRule,
    sel: Seq<usize>,
    unsel: Seq<usize>,
    budget: nat,
) -> Descent
    decreases budget,
{
    if budget == 0 {
        Descent { selected: sel, converged: false }
    } else if !has_move(data, rule, sel, unsel) {
        Descent { selected: sel, converged: true }
    } else {
        let (i, j) = the_move(data, rule, sel, unsel);
        let (s, u) = swapped(sel, unsel, i, j);
        descend(data, rule, s, u, (budget - 1) as nat)
    }
}

/// No single swap raises the diversity of `sel` by more than `tolerance`.
pub open spec fn locally_optimal(data: &MdpData, sel: Seq<usize>, tolerance: int) -> bool {
    forall|i: int, u: usize|
        0 <= i < sel.len() && u < data.n && !sel.contains(u) ==> #[trigger] swap_gain(
            data,
            sel[i],
            u,
            sel,
        ) <= tolerance
}

/// At most one position is the first admitted swap.
pub proof fn lemma_first_admitted_unique(
    data: &MdpData,
    adm: AdmissionRule,
    sel: Seq<usize>,
    unsel: Seq<usize>,
    i: int,
    j: int,
    a: int,
    b: int,
)
    requires
        is_first_admitted(data, adm, sel, unsel, i, j),
        is_first_admitted(data, adm, sel, unsel, a, b),
    ensures
        i == a && j == b,
{
    if scans_before(a, b, i, j) {
        assert(!admitted_at(data, adm, sel, unsel, a, b));
    }
    if scans_before(i, j, a, b) {
        assert(!admitted_at(data, adm, sel, unsel, i, j));
    }
}

/// At most one position is the first admitted swap of largest gain.
pub proof fn lemma_max_admitted_unique(
    data: &MdpData,
    adm: AdmissionRule,
    sel: Seq<usize>,
    unsel: Seq<usize>,
    i: int,
    j: int,
    a: int,
    b: int,
)
    requires
        is_max_admitted(data, adm, sel, unsel, i, j),
        is_max_admitted(data, adm, sel, unsel, a, b),
    ensures
        i == a && j == b,
{
    assert(admitted_at(data, adm, sel, unsel, a, b));
    assert(admitted_at(data, adm, sel, unsel, i, j));
}

/// A rule has at most one move from a selection; when `(i, j)` is it, the
/// rule has a move and `the_move` names it.
pub proof fn lemma_chosen_is_the_move(
    data: &MdpData,
    rule: MoveRule,
    sel: Seq<usize>,
    unsel: Seq<usize>,
    i: int,
    j: int,
)
    requires
        is_chosen(data, rule, sel, unsel, i, j),
    ensures
        has_move(data, rule, sel, unsel),
        the_move(data, rule, sel, unsel) == (i, j),
{
    let (a, b) = the_move(data, rule, sel, unsel);
    assert(is_chosen(data, rule, sel, unsel, a, b));
    match rule {
        MoveRule::FirstImprovement => {
            lemma_first_admitted_unique(data, AdmissionRule::Improving, sel, unsel, i, j, a, b);
        },
        MoveRule::BestImprovement => {
            lemma_max_admitted_unique(data, AdmissionRule::Improving, sel, unsel, i, j, a, b);
        },
    }
}

/// When nothing is admitted as improving, no rule has a move.
pub proof fn lemma_none_admitted_no_move(
    data: &MdpData,
    rule: MoveRule,
    sel: Seq<usize>,
    unsel: Seq<usize>,
)
    requires
        none_admitted(data, AdmissionRule::Improving, sel, unsel),
    ensures
        !has_move(data, rule, sel, unsel),
{
    if has_move(data, rule, sel, unsel) {
        let (a, b) = the_move(data, rule, sel, unsel);
        assert(is_chosen(data, rule, sel, unsel, a, b));
        assert(!admitted_at(data, AdmissionRule::Improving, sel, unsel, a, b));
    }
}

/// A swap between the two sides of a partition gives a partition again,
/// and changes the diversity of the selection by exactly its gain.
pub proof fn lemma_swap_keeps_partition(
    data: &MdpData,
    sel: Seq<usize>,
    unsel: Seq<usize>,
    i: int,
    j: int,
)
    requires
        data.wf(),
        is_partition(sel, unsel, data.n),
        is_position(sel, unsel, i, j),
    ensures
        is_partition(swapped(sel, unsel, i, j).0, swapped(sel, unsel, i, j).1, data.n),
        diversity(data, swapped(sel, unsel, i, j).0) == diversity(data, sel) + gain_at(
            data,
            sel,
            unsel,
            i,
            j,
        ),
{
    let (s, u) = swapped(sel, unsel, i, j);
    let leaving = sel[i];
    let entering = unsel[j];
    assert(sel.contains(leaving));
    assert(unsel.contains(entering));
    assert(!sel.contains(entering));
    assert(!unsel.contains(leaving));
    assert(s.no_duplicates()) by {
        assert forall|a: int, b: int| 0 <= a < s.len() && 0 <= b < s.len() && a != b implies s[a]
            != s[b] by {
            if a != i && b != i {
                assert(sel[a] != sel[b]);
            } else if a == i {
                assert(sel.contains(sel[b]));
            } else {
                assert(sel.contains(sel[a]));
            }
        }
    }
    assert(u.no_duplicates()) by {
        assert forall|a: int, b: int| 0 <= a < u.len() && 0 <= b < u.len() && a != b implies u[a]
            != u[b] by {
            if a != j && b != j {
                assert(unsel[a] != unsel[b]);
            } else if a == j {
                assert(unsel.contains(unsel[b]));
            } else {
                assert(unsel.contains(unsel[a]));
            }
        }
    }
    assert forall|e: usize| e < data.n implies (#[trigger] s.contains(e) <==> !u.contains(e)) by {
        if e == entering {
            assert(s[i] == e);
            if u.contains(e) {
                let t = choose|t: int| 0 <= t < u.len() && u[t] == e;
                assert(unsel[t] == e || t == j);
            }
        } else if e == leaving {
            assert(u[j] == e);
            if s.contains(e) {
                let t = choose|t: int| 0 <= t < s.len() && s[t] == e;
                assert(sel[t] == e || t == i);
            }
        } else {
            if s.contains(e) {
                let t = choose|t: int| 0 <= t < s.len() && s[t] == e;
                assert(sel[t] == e);
                assert(sel.contains(e));
            }
            if sel.contains(e) {
                let t = choose|t: int| 0 <= t < sel.len() && sel[t] == e;
                assert(s[t] == e);
            }
            if u.contains(e) {
                let t = choose|t: int| 0 <= t < u.len() && u[t] == e;
                assert(unsel[t] == e);
                assert(unsel.contains(e));
            }
            if unsel.contains(e) {
                let t = choose|t: int| 0 <= t < unsel.len() && unsel[t] == e;
                assert(u[t] == e);
            }
            assert(sel.contains(e) <==> !unsel.contains(e));
        }
    }
    lemma_swap_gain_is_diversity_change(data, sel, i, entering);
}

/// When no swap between the two sides of a partition is admitted as
/// improving, the selection is locally optimal.
pub proof fn lemma_none_admitted_is_optimal(data: &MdpData, sel: Seq<usize>, unsel: Seq<usize>)
    requires
        is_partition(sel, unsel, data.n),
        none_admitted(data, AdmissionRule::Improving, sel, unsel),
    ensures
        locally_optimal(data, sel, GAIN_TOLERANCE as int),
{
    assert forall|i: int, u: usize|
        0 <= i < sel.len() && u < data.n && !sel.contains(u) implies #[trigger] swap_gain(
        data,
        sel[i],
        u,
        sel,
    ) <= GAIN_TOLERANCE by {
        assert(unsel.contains(u));
        let j = choose|j: int| 0 <= j < unsel.len() && unsel[j] == u;
        assert(!admitted_at(data, AdmissionRule::Improving, sel, unsel, i, j));
    }
}

/// A descent keeps the selection a selection, never lowers the diversity,
/// and when it converges it ends in a local optimum: no single swap
/// raises the diversity by more than the tolerance.
pub proof fn lemma_descent_ends_well(
    data: &MdpData,
    rule: MoveRule,
    sel: Seq<usize>,
    unsel: Seq<usize>,
    budget: nat,
)
    requires
        data.wf(),
        is_partition(sel, unsel, data.n),
    ensures
        is_selection(descend(data, rule, sel, unsel, budget).selected, data.n, sel.len() as usize),
        diversity(data, descend(data, rule, sel, unsel, budget).selected) >= diversity(data, sel),
        descend(data, rule, sel, unsel, budget).converged ==> locally_optimal(
            data,
            descend(data, rule, sel, unsel, budget).selected,
            GAIN_TOLERANCE as int,
        ),
    decreases budget,
{
    crate::selection::lemma_distinct_len(sel, data.n);
    if budget == 0 {
    } else if !has_move(data, rule, sel, unsel) {
        assert forall|a: int, b: int| is_position(sel, unsel, a, b) implies !#[trigger] admitted_at(
            data,
            AdmissionRule::Improving,
            sel,
            unsel,
            a,
            b,
        ) by {
            if admitted_at(data, AdmissionRule::Improving, sel, unsel, a, b) {
                lemma_admitted_has_move(data, rule, sel, unsel, a, b);
            }
        }
        lemma_none_admitted_is_optimal(data, sel, unsel);
    } else {
        let (i, j) = the_move(data, rule, sel, unsel);
        assert(is_chosen(data, rule, sel, unsel, i, j));
        assert(admitted_at(data, AdmissionRule::Improving, sel, unsel, i, j));
        let (s, u) = swapped(sel, unsel, i, j);
        lemma_swap_keeps_partition(data, sel, unsel, i, j);
        lemma_descent_ends_well(data, rule, s, u, (budget - 1) as nat);
    }
}

/// When some swap is admitted as improving, every rule has a move.
pub proof fn lemma_admitted_has_move(
    data: &MdpData,
    rule: MoveRule,
    sel: Seq<usize>,
    unsel: Seq<usize>,
    a: int,
    b: int,
)
    requires
        is_position(sel, unsel, a, b),
        admitted_at(data, AdmissionRule::Improving, sel, unsel, a, b),
    ensures
        has_move(data, rule, sel, unsel),
{
    let (i, j) = lemma_first_among(data, sel, unsel, a, b);
    match rule {
        MoveRule::FirstImprovement => {
            assert(is_chosen(data, rule, sel, unsel, i, j));
        },
        MoveRule::BestImprovement => {
            let found = lemma_max_among(
                data,
                AdmissionRule::Improving,
                sel,
                unsel,
                sel.len() as int,
                0,
            );
            assert(found is Some);
            let (p, q) = found->0;
            assert(is_chosen(data, rule, sel, unsel, p, q));
        },
    }
}

/// Among the positions up to an admitted one, one is the first admitted.
proof fn lemma_first_among(data: &MdpData, sel: Seq<usize>, unsel: Seq<usize>, a: int, b: int) -> (r: (
    int,
    int,
))
    requires
        is_position(sel, unsel, a, b),
        admitted_at(data, AdmissionRule::Improving, sel, unsel, a, b),
    ensures
        is_first_admitted(data, AdmissionRule::Improving, sel, unsel, r.0, r.1),
    decreases a * unsel.len() + b,
{
    if exists|c: int, d: int|
        is_position(sel, unsel, c, d) && scans_before(c, d, a, b) && admitted_at(
            data,
            AdmissionRule::Improving,
            sel,
            unsel,
            c,
            d,
        ) {
        let (c, d) = choose|c: int, d: int|
            is_position(sel, unsel, c, d) && scans_before(c, d, a, b) && admitted_at(
                data,
                AdmissionRule::Improving,
                sel,
                unsel,
                c,
                d,
            );
        assert(c * unsel.len() + d < a * unsel.len() + b) by (nonlinear_arith)
            requires
                c < a || (c == a && d < b),
                0 <= d < unsel.len(),
                0 <= b < unsel.len(),
                0 <= c,
        ;
        assert(0 <= c * unsel.len() + d) by (nonlinear_arith)
            requires
                0 <= c,
                0 <= d,
                0 <= unsel.len(),
        ;
        lemma_first_among(data, sel, unsel, c, d)
    } else {
        (a, b)
    }
}

/// Among the positions before `(i, j)`, either none is admitted or one is
/// the first of largest gain among the admitted.
pub proof fn lemma_max_among(
    data: &MdpData,
    adm: AdmissionRule,
    sel: Seq<usize>,
    unsel: Seq<usize>,
    i: int,
    j: int,
) -> (r: Option<(int, int)>)
    requires
        0 <= i <= sel.len(),
        0 <= j <= unsel.len(),
        i < sel.len() || j == 0,
    ensures
        match r {
            None => forall|c: int, d: int|
                is_position(sel, unsel, c, d) && scans_before(c, d, i, j) ==> !#[trigger] admitted_at(
                    data,
                    adm,
                    sel,
                    unsel,
                    c,
                    d,
                ),
            Some((p, q)) => {
                &&& is_position(sel, unsel, p, q)
                &&& scans_before(p, q, i, j)
                &&& admitted_at(data, adm, sel, unsel, p, q)
                &&& forall|c: int, d: int|
                    is_position(sel, unsel, c, d) && scans_before(c, d, i, j)
                        && #[trigger] admitted_at(data, adm, sel, unsel, c, d) ==> {
                        &&& gain_at(data, sel, unsel, c, d) <= gain_at(data, sel, unsel, p, q)
                        &&& scans_before(c, d, p, q) ==> gain_at(data, sel, unsel, c, d) < gain_at(
                            data,
                            sel,
                            unsel,
                            p,
                            q,
                        )
                    }
            },
        },
    decreases i * (unsel.len() + 1) + j,
{
    if i == 0 && j == 0 {
        None
    } else if j == 0 {
        assert((i - 1) * (unsel.len() + 1) + unsel.len() < i * (unsel.len() + 1)) by (nonlinear_arith);
        assert(0 <= (i - 1) * (unsel.len() + 1)) by (nonlinear_arith)
            requires
                i >= 1,
        ;
        lemma_max_among(data, adm, sel, unsel, i - 1, unsel.len() as int)
    } else {
        assert(0 <= i * (unsel.len() + 1)) by (nonlinear_arith)
            requires
                i >= 0,
        ;
        let r = lemma_max_among(data, adm, sel, unsel, i, j - 1);
        if admitted_at(data, adm, sel, unsel, i, j - 1) {
            match r {
                None => Some((i, j - 1)),
                Some((p, q)) => if gain_at(data, sel, unsel, i, j - 1) > gain_at(
                    data,
                    sel,
                    unsel,
                    p,
                    q,
                ) {
                    Some((i, j - 1))
                } else {
                    r
                },
            }
        } else {
            r
        }
    }
}

/// Makes the swap at `(i, j)`.
pub fn apply_swap(selected: &mut Vec<usize>, unselected: &mut Vec<usize>, i: usize, j: usize)
    requires
        is_position(old(selected)@, old(unselected)@, i as int, j as int),
    ensures
        (final(selected)@, final(unselected)@) == swapped(
            old(selected)@,
            old(unselected)@,
            i as int,
            j as int,
        ),
{
    let leaving = selected[i];
    let entering = unselected[j];
    selected[i] = entering;
    unselected[j] = leaving;
}

/// `current + gain`, for a sum that is known to be a diversity.
pub fn add_gain(current: u128, gain: i128) -> (sum: u128)
    requires
        0 <= current + gain <= u128::MAX,
    ensures
        sum == current + gain,
{
    if gain >= 0 {
        current + (gain as u128)
    } else if gain == i128::MIN {
        current - 0x8000_0000_0000_0000_0000_0000_0000_0000u128
    } else {
        current - ((-gain) as u128)
    }
}

impl SearchOutcome {
    /// The outcome as the descent it ended.
    pub open spec fn descent(&self) -> Descent {
        Descent { selected: self.selected@, converged: self.status is Converged }
    }
}

/// `out` is what the descent from `sel` gives: with a limit, after at most
/// that many iterations; without one, after as many as it takes to
/// converge.
pub open spec fn is_descent_result(
    data: &MdpData,
    rule: MoveRule,
    sel: Seq<usize>,
    unsel: Seq<usize>,
    limit: Option<usize>,
    out: Descent,
) -> bool {
    match limit {
        Some(cap) => out == descend(data, rule, sel, unsel, cap as nat),
        None => out.converged && exists|budget: nat| out == descend(data, rule, sel, unsel, budget),
    }
}

/// Runs a descent from `selected`: while an iteration is left and the rule
/// has a move, makes it. Every move raises the diversity, so a descent
/// without a limit ends too.
pub fn run_descent(
    data: &MdpData,
    selected: Vec<usize>,
    unselected: Vec<usize>,
    rule: MoveRule,
    limit: Option<usize>,
) -> (out: SearchOutcome)
    requires
        data.wf(),
        is_partition(selected@, unselected@, data.n),
    ensures
        is_descent_result(data, rule, selected@, unselected@, limit, out.descent()),
        !(out.status is Running),
        is_selection(out.selected@, data.n, selected.len()),
        out.diversity == diversity(data, out.selected@),
        out.diversity >= diversity(data, selected@),
        out.status is Converged ==> locally_optimal(data, out.selected@, GAIN_TOLERANCE as int),
        out.status is Exhausted ==> limit is Some && out.diversity >= diversity(data, selected@)
            + limit->0,
{
    let ghost sel0 = selected@;
    let ghost unsel0 = unselected@;
    let ghost bound = sel0.len() * sel0.len() * u64::MAX;
    let mut selected = selected;
    let mut unselected = unselected;
    proof {
        crate::selection::lemma_distinct_len(sel0, data.n);
        lemma_sums_fit(data, sel0.len() as int);
        lemma_diversity_bounds(data, sel0);
    }
    let mut current = calculate_diversity(selected.as_slice(), data);
    let mut remaining = limit;
    let mut status = SearchStatus::Running;
    let ghost mut done: nat = 0;
    while matches!(status, SearchStatus::Running)
        invariant
            data.wf(),
            is_partition(selected@, unselected@, data.n),
            selected@.len() == sel0.len(),
            sel0.len() <= data.n,
            bound == sel0.len() * sel0.len() * u64::MAX,
            bound < 0x1_0000_0000_0000_0000_0000_0000_0000_0000,
            current == diversity(data, selected@),
            current >= diversity(data, sel0) + done,
            current <= bound,
            status is Exhausted ==> limit == Some(done as usize),
            status is Running ==> forall|b: nat|
                descend(data, rule, sel0, unsel0, done + b) == #[trigger] descend(
                    data,
                    rule,
                    selected@,
                    unselected@,
                    b,
                ),
            status is Running ==> match limit {
                Some(cap) => remaining == Some((cap - done) as usize) && done <= cap,
                None => remaining is None,
            },
            !(status is Running) ==> is_descent_result(
                data,
                rule,
                sel0,
                unsel0,
                limit,
                Descent { selected: selected@, converged: status is Converged },
            ),
            status is Converged ==> locally_optimal(data, selected@, GAIN_TOLERANCE as int),
        decreases bound - current + (if status is Running { 1int } else { 0int }),
    {
        let spent = match remaining {
            Some(r) => r == 0,
            None => false,
        };
        if spent {
            proof {
                assert(descend(data, rule, sel0, unsel0, done + 0) == descend(
                    data,
                    rule,
                    selected@,
                    unselected@,
                    0,
                ));
            }
            status = SearchStatus::Exhausted;
        } else {
            let found = match rule {
                MoveRule::FirstImprovement => find_first_admitted(
                    data,
                    selected.as_slice(),
                    unselected.as_slice(),
                    &Admission::Improving,
                ),
                MoveRule::BestImprovement => find_max_admitted(
                    data,
                    selected.as_slice(),
                    unselected.as_slice(),
                    &Admission::Improving,
                ),
            };
            match found {
                None => {
                    proof {
                        lemma_none_admitted_no_move(data, rule, selected@, unselected@);
                        lemma_none_admitted_is_optimal(data, selected@, unselected@);
                        let left: nat = match limit {
                            Some(cap) => (cap - done) as nat,
                            None => 1,
                        };
                        assert(left > 0);
                        assert(descend(data, rule, sel0, unsel0, done + left) == descend(
                            data,
                            rule,
                            selected@,
                            unselected@,
                            left,
                        ));
                    }
                    status = SearchStatus::Converged;
                },
                Some((i, j, gain)) => {
                    let ghost before_sel = selected@;
                    let ghost before_unsel = unselected@;
                    proof {
                        assert(is_chosen(data, rule, before_sel, before_unsel, i as int, j as int));
                        assert(admitted_at(
                            data,
                            AdmissionRule::Improving,
                            before_sel,
                            before_unsel,
                            i as int,
                            j as int,
                        ));
                        lemma_chosen_is_the_move(
                            data,
                            rule,
                            before_sel,
                            before_unsel,
                            i as int,
                            j as int,
                        );
                        lemma_swap_keeps_partition(data, before_sel, before_unsel, i as int, j as int);
                        lemma_diversity_bounds(
                            data,
                            swapped(before_sel, before_unsel, i as int, j as int).0,
                        );
                    }
                    apply_swap(&mut selected, &mut unselected, i, j);
                    current = add_gain(current, gain);
                    remaining =
                    match remaining {
                        Some(r) => Some(r - 1),
                        None => None,
                    };
                    proof {
                        assert forall|b: nat|
                            descend(data, rule, sel0, unsel0, done + 1 + b) == #[trigger] descend(
                                data,
                                rule,
                                selected@,
                                unselected@,
                                b,
                            ) by {
                            assert(descend(data, rule, sel0, unsel0, done + (b + 1)) == descend(
                                data,
                                rule,
                                before_sel,
                                before_unsel,
                                b + 1,
                            ));
                            assert((b + 1 - 1) as nat == b);
                        }
                        done = done + 1;
                    }
                },
            }
        }
    }
    SearchOutcome { selected, diversity: current, status }
}

} // verus!
