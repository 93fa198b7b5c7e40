//! Diversity arithmetic: the diversity of a selection, the marginal
//! contribution of a candidate, and the gain of a swap.

use crate::model::MdpData;
use vstd::prelude::*;

verus! {

/// Every element of `s` is an element of the instance, that is below `n`.
pub open spec fn in_range(s: Seq<usize>, n: usize) -> bool {
    forall|t: int| 0 <= t < s.len() ==> #[trigger] s[t] < n
}

/// The sum of the distances from `c` to every member of `sel`.
pub open spec fn contribution(data: &MdpData, c: usize, sel: Seq<usize>) -> int
    decreases sel.len(),
{
    if sel.len() == 0 {
        0
    } else {
        contribution(data, c, sel.drop_last()) + data.dist(c as int, sel.last() as int)
    }
}

/// The sum of the distances over all unordered pairs of positions of `sel`.
pub open spec fn diversity(data: &MdpData, sel: Seq<usize>) -> int
    decreases sel.len(),
{
    if sel.len() == 0 {
        0
    } else {
        diversity(data, sel.drop_last()) + contribution(data, sel.last(), sel.drop_last())
    }
}

/// The sum, over the members `s` of `sel` other than `leaving`, of
/// `dist(entering, s) - dist(leaving, s)`.
pub open spec fn swap_gain(data: &MdpData, leaving: usize, entering: usize, sel: Seq<usize>) -> int
    decreases sel.len(),
{
    if sel.len() == 0 {
        0
    } else {
        swap_gain(data, leaving, entering, sel.drop_last()) + if sel.last() == leaving {
            0
        } else {
            data.dist(entering as int, sel.last() as int) - data.dist(
                leaving as int,
                sel.last() as int,
            )
        }
    }
}

/// A contribution is non-negative and at most `u64::MAX` per member.
pub proof fn lemma_contribution_bounds(data: &MdpData, c: usize, sel: Seq<usize>)
    requires
        data.wf(),
        c < data.n,
        in_range(sel, data.n),
    ensures
        0 <= contribution(data, c, sel) <= sel.len() * u64::MAX,
    decreases sel.len(),
{
    if sel.len() > 0 {
        lemma_contribution_bounds(data, c, sel.drop_last());
        data.lemma_index_in_bounds(c as int, sel.last() as int);
        assert((sel.len() - 1) * u64::MAX + u64::MAX == sel.len() * u64::MAX) by (nonlinear_arith);
    }
}

/// A diversity is non-negative and at most `u64::MAX` per ordered pair.
pub proof fn lemma_diversity_bounds(data: &MdpData, sel: Seq<usize>)
    requires
        data.wf(),
        in_range(sel, data.n),
    ensures
        0 <= diversity(data, sel) <= sel.len() * sel.len() * u64::MAX,
    decreases sel.len(),
{
    if sel.len() > 0 {
        let m = sel.len() as int;
        lemma_diversity_bounds(data, sel.drop_last());
        lemma_contribution_bounds(data, sel.last(), sel.drop_last());
        assert((m - 1) * (m - 1) * u64::MAX + (m - 1) * u64::MAX <= m * m * u64::MAX)
            by (nonlinear_arith)
            requires
                m >= 1,
        ;
    }
}

/// The magnitude of a swap gain is at most `u64::MAX` per member.
pub proof fn lemma_swap_gain_bounds(
    data: &MdpData,
    leaving: usize,
    entering: usize,
    sel: Seq<usize>,
)
    requires
        data.wf(),
        leaving < data.n,
        entering < data.n,
        in_range(sel, data.n),
    ensures
        -(sel.len() * u64::MAX) <= swap_gain(data, leaving, entering, sel) <= sel.len() * u64::MAX,
    decreases sel.len(),
{
    if sel.len() > 0 {
        lemma_swap_gain_bounds(data, leaving, entering, sel.drop_last());
        data.lemma_index_in_bounds(entering as int, sel.last() as int);
        data.lemma_index_in_bounds(leaving as int, sel.last() as int);
        assert((sel.len() - 1) * u64::MAX + u64::MAX == sel.len() * u64::MAX) by (nonlinear_arith);
    }
}

/// An instance whose matrix fits in memory has fewer than `2^32` elements,
/// so sums over a selection of at most `n` elements fit in 128 bits.
pub proof fn lemma_sums_fit(data: &MdpData, len: int)
    requires
        data.wf(),
        0 <= len <= data.n,
    ensures
        len * u64::MAX < 0x1_0000_0000_0000_0000_0000_0000,
        len * len * u64::MAX < 0x1_0000_0000_0000_0000_0000_0000_0000_0000,
{
    let n = data.n as int;
    assert(n < 0x1_0000_0000) by (nonlinear_arith)
        requires
            n * n <= 0xffff_ffff_ffff_ffff,
            n >= 0,
    ;
    assert(len * u64::MAX < 0x1_0000_0000_0000_0000_0000_0000) by (nonlinear_arith)
        requires
            0 <= len < 0x1_0000_0000,
    ;
    assert(len * len * u64::MAX < 0x1_0000_0000_0000_0000_0000_0000_0000_0000)
        by (nonlinear_arith)
        requires
            0 <= len < 0x1_0000_0000,
    ;
}

/// The sum of the distances from `candidate` to the first `upto` members of
/// `selected`.
fn contribution_to_prefix(candidate: usize, selected: &[usize], upto: usize, data: &MdpData) -> (sum:
    u128)
    requires
        data.wf(),
        candidate < data.n,
        in_range(selected@, data.n),
        upto <= selected@.len() <= data.n,
    ensures
        sum == contribution(data, candidate, selected@.take(upto as int)),
{
    let mut sum: u128 = 0;
    let mut t: usize = 0;
    proof {
        lemma_sums_fit(data, selected@.len() as int);
    }
    while t < upto
        invariant
            data.wf(),
            candidate < data.n,
            in_range(selected@, data.n),
            t <= upto <= selected@.len(),
            selected@.len() * u64::MAX < 0x1_0000_0000_0000_0000_0000_0000,
            sum == contribution(data, candidate, selected@.take(t as int)),
        decreases upto - t,
    {
        proof {
            assert(selected@.take(t + 1).drop_last() =~= selected@.take(t as int));
            assert(in_range(selected@.take(t + 1), data.n));
            lemma_contribution_bounds(data, candidate, selected@.take(t + 1));
            assert((t + 1) * u64::MAX <= selected@.len() * u64::MAX) by (nonlinear_arith)
                requires
                    t + 1 <= selected@.len(),
            ;
        }
        sum = sum + data.get_dist(candidate, selected[t]) as u128;
        t = t + 1;
    }
    sum
}

/// The sum of the distances from `candidate` to every member of `selected`.
pub fn calculate_marginal_contribution(candidate: usize, selected: &[usize], data: &MdpData) -> (sum:
    u128)
    requires
        data.wf(),
        candidate < data.n,
        in_range(selected@, data.n),
        selected@.len() <= data.n,
    ensures
        sum == contribution(data, candidate, selected@),
{
    proof {
        assert(selected@.take(selected@.len() as int) =~= selected@);
    }
    contribution_to_prefix(candidate, selected, selected.len(), data)
}

/// The diversity of `selected`: the sum of the distances over all unordered
/// pairs of its members.
pub fn calculate_diversity(selected: &[usize], data: &MdpData) -> (sum: u128)
    requires
        data.wf(),
        in_range(selected@, data.n),
        selected@.len() <= data.n,
    ensures
        sum == diversity(data, selected@),
{
    let mut sum: u128 = 0;
    let mut j: usize = 0;
    proof {
        lemma_sums_fit(data, selected@.len() as int);
    }
    while j < selected.len()
        invariant
            data.wf(),
            in_range(selected@, data.n),
            j <= selected@.len() <= data.n,
            selected@.len() * selected@.len() * u64::MAX
                < 0x1_0000_0000_0000_0000_0000_0000_0000_0000,
            sum == diversity(data, selected@.take(j as int)),
        decreases selected@.len() - j,
    {
        let part = contribution_to_prefix(selected[j], selected, j, data);
        proof {
            assert(selected@.take(j + 1).drop_last() =~= selected@.take(j as int));
            assert(in_range(selected@.take(j + 1), data.n));
            lemma_diversity_bounds(data, selected@.take(j + 1));
            assert((j + 1) * (j + 1) * u64::MAX <= selected@.len() * selected@.len() * u64::MAX)
                by (nonlinear_arith)
                requires
                    0 <= j + 1 <= selected@.len(),
            ;
        }
        sum = sum + part;
        j = j + 1;
    }
    proof {
        assert(selected@.take(j as int) =~= selected@);
    }
    sum
}

/// The change in diversity when `leaving`, a member of `selected`, is
/// replaced by `entering`: the sum over the other members `s` of
/// `dist(entering, s) - dist(leaving, s)`.
pub fn calculate_swap_gain(leaving: usize, entering: usize, selected: &[usize], data: &MdpData) -> (gain:
    i128)
    requires
        data.wf(),
        leaving < data.n,
        entering < data.n,
        in_range(selected@, data.n),
        selected@.len() <= data.n,
    ensures
        gain == swap_gain(data, leaving, entering, selected@),
{
    let mut gain: i128 = 0;
    let mut t: usize = 0;
    proof {
        lemma_sums_fit(data, selected@.len() as int);
    }
    while t < selected.len()
        invariant
            data.wf(),
            leaving < data.n,
            entering < data.n,
            in_range(selected@, data.n),
            t <= selected@.len(),
            selected@.len() * u64::MAX < 0x1_0000_0000_0000_0000_0000_0000,
            gain == swap_gain(data, leaving, entering, selected@.take(t as int)),
        decreases selected@.len() - t,
    {
        let s = selected[t];
        proof {
            assert(selected@.take(t + 1).drop_last() =~= selected@.take(t as int));
            assert(in_range(selected@.take(t + 1), data.n));
            assert(in_range(selected@.take(t as int), data.n));
            lemma_swap_gain_bounds(data, leaving, entering, selected@.take(t as int));
            lemma_swap_gain_bounds(data, leaving, entering, selected@.take(t + 1));
            assert((t + 1) * u64::MAX <= selected@.len() * u64::MAX) by (nonlinear_arith)
                requires
                    t + 1 <= selected@.len(),
            ;
        }
        if s != leaving {
            gain = gain + (data.get_dist(entering, s) as i128 - data.get_dist(leaving, s) as i128);
        }
        t = t + 1;
    }
    proof {
        assert(selected@.take(t as int) =~= selected@);
    }
    gain
}

/// With `leaving` absent from `sel`, the swap gain is the difference of the
/// two contributions.
pub proof fn lemma_swap_gain_of_absent(
    data: &MdpData,
    leaving: usize,
    entering: usize,
    sel: Seq<usize>,
)
    requires
        !sel.contains(leaving),
    ensures
        swap_gain(data, leaving, entering, sel) == contribution(data, entering, sel)
            - contribution(data, leaving, sel),
    decreases sel.len(),
{
    if sel.len() > 0 {
        assert(sel.last() == sel[sel.len() - 1]);
        assert forall|t: int| 0 <= t < sel.drop_last().len() implies sel.drop_last()[t]
            != leaving by {
            assert(sel.drop_last()[t] == sel[t]);
        }
        lemma_swap_gain_of_absent(data, leaving, entering, sel.drop_last());
    }
}

/// Replacing the member at position `i` changes the contribution of `c` by
/// the difference of the two distances.
pub proof fn lemma_contribution_update(
    data: &MdpData,
    c: usize,
    sel: Seq<usize>,
    i: int,
    entering: usize,
)
    requires
        0 <= i < sel.len(),
    ensures
        contribution(data, c, sel.update(i, entering)) == contribution(data, c, sel) - data.dist(
            c as int,
            sel[i] as int,
        ) + data.dist(c as int, entering as int),
    decreases sel.len(),
{
    let upd = sel.update(i, entering);
    if i == sel.len() - 1 {
        assert(upd.drop_last() =~= sel.drop_last());
    } else {
        assert(upd.drop_last() =~= sel.drop_last().update(i, entering));
        lemma_contribution_update(data, c, sel.drop_last(), i, entering);
    }
}

/// The swap-gain identity. When the member at position `i` occurs nowhere
/// else in `sel`, replacing it by `entering` changes the diversity by
/// exactly the swap gain.
pub proof fn lemma_swap_gain_is_diversity_change(
    data: &MdpData,
    sel: Seq<usize>,
    i: int,
    entering: usize,
)
    requires
        data.wf(),
        in_range(sel, data.n),
        entering < data.n,
        0 <= i < sel.len(),
        forall|t: int| 0 <= t < sel.len() && t != i ==> sel[t] != sel[i],
    ensures
        diversity(data, sel.update(i, entering)) == diversity(data, sel) + swap_gain(
            data,
            sel[i],
            entering,
            sel,
        ),
    decreases sel.len(),
{
    let leaving = sel[i];
    let upd = sel.update(i, entering);
    let front = sel.drop_last();
    if i == sel.len() - 1 {
        assert(upd.drop_last() =~= front);
        assert(!front.contains(leaving)) by {
            if front.contains(leaving) {
                let t = choose|t: int| 0 <= t < front.len() && front[t] == leaving;
                assert(sel[t] == leaving);
            }
        }
        lemma_swap_gain_of_absent(data, leaving, entering, front);
    } else {
        let x = sel.last();
        assert(upd.drop_last() =~= front.update(i, entering));
        assert(upd.last() == x);
        assert(x != leaving);
        assert forall|t: int| 0 <= t < front.len() && t != i implies front[t] != front[i] by {
            assert(front[t] == sel[t]);
        }
        lemma_swap_gain_is_diversity_change(data, front, i, entering);
        lemma_contribution_update(data, x, front, i, entering);
        assert(data.dist(x as int, entering as int) == data.dist(entering as int, x as int));
        assert(data.dist(x as int, leaving as int) == data.dist(leaving as int, x as int));
    }
}

/// The selection after a sequence of swaps, each given as the position
/// whose member leaves and the element that enters.
pub open spec fn after_swaps(sel: Seq<usize>, swaps: Seq<(int, usize)>) -> Seq<usize>
    decreases swaps.len(),
{
    if swaps.len() == 0 {
        sel
    } else {
        after_swaps(sel, swaps.drop_last()).update(swaps.last().0, swaps.last().1)
    }
}

/// Every swap of the sequence names a position of the selection and
/// brings in an element of the instance that the selection lacks at that
/// moment.
pub open spec fn swaps_admissible(sel: Seq<usize>, swaps: Seq<(int, usize)>, n: usize) -> bool
    decreases swaps.len(),
{
    if swaps.len() == 0 {
        true
    } else {
        let earlier = after_swaps(sel, swaps.drop_last());
        &&& swaps_admissible(sel, swaps.drop_last(), n)
        &&& 0 <= swaps.last().0 < sel.len()
        &&& swaps.last().1 < n
        &&& !earlier.contains(swaps.last().1)
    }
}

/// The value obtained from `start` by adding, for each swap in turn, its
/// gain on the selection as it stands before that swap.
pub open spec fn tracked_diversity(
    data: &MdpData,
    start: int,
    sel: Seq<usize>,
    swaps: Seq<(int, usize)>,
) -> int
    decreases swaps.len(),
{
    if swaps.len() == 0 {
        start
    } else {
        let earlier = after_swaps(sel, swaps.drop_last());
        tracked_diversity(data, start, sel, swaps.drop_last()) + swap_gain(
            data,
            earlier[swaps.last().0],
            swaps.last().1,
            earlier,
        )
    }
}

/// Admissible swaps keep a selection a selection of the same size.
pub proof fn lemma_after_swaps_distinct(sel: Seq<usize>, swaps: Seq<(int, usize)>, n: usize)
    requires
        in_range(sel, n),
        sel.no_duplicates(),
        swaps_admissible(sel, swaps, n),
    ensures
        after_swaps(sel, swaps).len() == sel.len(),
        in_range(after_swaps(sel, swaps), n),
        after_swaps(sel, swaps).no_duplicates(),
    decreases swaps.len(),
{
    if swaps.len() > 0 {
        lemma_after_swaps_distinct(sel, swaps.drop_last(), n);
        let earlier = after_swaps(sel, swaps.drop_last());
        let now = after_swaps(sel, swaps);
        let i = swaps.last().0;
        assert forall|a: int, b: int| 0 <= a < now.len() && 0 <= b < now.len() && a != b implies now[a]
            != now[b] by {
            if a != i && b != i {
                assert(earlier[a] != earlier[b]);
            } else if a == i {
                assert(earlier.contains(earlier[b]));
            } else {
                assert(earlier.contains(earlier[a]));
            }
        }
    }
}

/// Incremental evaluation is exact: starting from the diversity of a
/// selection and adding the gain of each swap of an admissible sequence
/// gives the diversity of the selection that the swaps lead to.
pub proof fn lemma_tracked_diversity_is_exact(
    data: &MdpData,
    sel: Seq<usize>,
    swaps: Seq<(int, usize)>,
)
    requires
        data.wf(),
        in_range(sel, data.n),
        sel.no_duplicates(),
        swaps_admissible(sel, swaps, data.n),
    ensures
        tracked_diversity(data, diversity(data, sel), sel, swaps) == diversity(
            data,
            after_swaps(sel, swaps),
        ),
    decreases swaps.len(),
{
    if swaps.len() > 0 {
        let earlier = after_swaps(sel, swaps.drop_last());
        lemma_tracked_diversity_is_exact(data, sel, swaps.drop_last());
        lemma_after_swaps_distinct(sel, swaps.drop_last(), data.n);
        lemma_swap_gain_is_diversity_change(data, earlier, swaps.last().0, swaps.last().1);
    }
}

} // verus!
