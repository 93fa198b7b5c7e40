//! Selections: sequences of distinct elements of an instance, and the
//! split of the instance into a selection and its complement.

use crate::evaluator::in_range;
use crate::random::shuffle;
use rand::rngs::StdRng;
use vstd::prelude::*;

verus! {

/// `s` holds exactly `k` distinct elements, each below `n`.
pub open spec fn is_selection(s: Seq<usize>, n: usize, k: usize) -> bool {
    &&& s.len() == k
    &&& in_range(s, n)
    &&& s.no_duplicates()
}

/// `sel` and `unsel` are disjoint, free of duplicates, and together hold
/// every element below `n` and nothing else.
pub open spec fn is_partition(sel: Seq<usize>, unsel: Seq<usize>, n: usize) -> bool {
    &&& in_range(sel, n)
    &&& in_range(unsel, n)
    &&& sel.no_duplicates()
    &&& unsel.no_duplicates()
    &&& forall|e: usize| e < n ==> (#[trigger] sel.contains(e) <==> !unsel.contains(e))
}

/// `s` lists, in increasing order, the elements below `n` that `sel` lacks.
pub open spec fn is_complement(s: Seq<usize>, sel: Seq<usize>, n: usize) -> bool {
    &&& forall|a: int, b: int| 0 <= a < b < s.len() ==> s[a] < s[b]
    &&& forall|e: usize| #[trigger] s.contains(e) <==> (e < n && !sel.contains(e))
}

/// The elements below `n`, as a set.
pub open spec fn below(n: usize) -> Set<usize> {
    Set::new(|e: usize| e < n)
}

/// There are exactly `n` elements below `n`.
pub proof fn lemma_below_len(n: usize)
    ensures
        below(n).finite(),
        below(n).len() == n,
    decreases n,
{
    if n == 0 {
        assert(below(n) =~= Set::<usize>::empty());
    } else {
        let m = (n - 1) as usize;
        lemma_below_len(m);
        assert(below(n) =~= below(m).insert(m));
    }
}

/// Distinct elements below `n` are at most `n` in number.
pub proof fn lemma_distinct_len(s: Seq<usize>, n: usize)
    requires
        in_range(s, n),
        s.no_duplicates(),
    ensures
        s.len() <= n,
{
    lemma_below_len(n);
    s.unique_seq_to_set();
    assert(s.to_set().subset_of(below(n))) by {
        assert forall|e: usize| s.to_set().contains(e) implies below(n).contains(e) by {
            let t = choose|t: int| 0 <= t < s.len() && s[t] == e;
            assert(s[t] < n);
        }
    }
    vstd::set_lib::lemma_len_subset(s.to_set(), below(n));
}

/// A sequence that holds every element below `n` has at least `n` entries.
pub proof fn lemma_covering_len(s: Seq<usize>, n: usize)
    requires
        forall|e: usize| e < n ==> s.contains(e),
    ensures
        s.len() >= n,
{
    lemma_below_len(n);
    s.lemma_cardinality_of_set();
    assert(below(n).subset_of(s.to_set())) by {
        assert forall|e: usize| below(n).contains(e) implies s.to_set().contains(e) by {
            assert(s.contains(e));
        }
    }
    vstd::set_lib::lemma_len_subset(below(n), s.to_set());
}

/// The two sides of a partition have `n` elements between them.
pub proof fn lemma_partition_len(sel: Seq<usize>, unsel: Seq<usize>, n: usize)
    requires
        is_partition(sel, unsel, n),
    ensures
        sel.len() + unsel.len() == n,
{
    let all = sel + unsel;
    assert(in_range(all, n));
    assert(all.no_duplicates()) by {
        assert forall|a: int, b: int| 0 <= a < all.len() && 0 <= b < all.len() && a != b implies all[a]
            != all[b] by {
            if a < sel.len() && b >= sel.len() {
                assert(sel.contains(sel[a]));
                assert(unsel.contains(unsel[b - sel.len()]));
            }
            if b < sel.len() && a >= sel.len() {
                assert(sel.contains(sel[b]));
                assert(unsel.contains(unsel[a - sel.len()]));
            }
        }
    }
    assert forall|e: usize| e < n implies all.contains(e) by {
        if sel.contains(e) {
            let t = choose|t: int| 0 <= t < sel.len() && sel[t] == e;
            assert(all[t] == e);
        } else {
            assert(unsel.contains(e));
            let t = choose|t: int| 0 <= t < unsel.len() && unsel[t] == e;
            assert(all[t + sel.len()] == e);
        }
    }
    lemma_distinct_len(all, n);
    lemma_covering_len(all, n);
}

/// Cutting a duplicate-free listing of the elements below `n` at any point
/// gives a partition.
pub proof fn lemma_split_is_partition(all: Seq<usize>, n: usize, k: int)
    requires
        all.no_duplicates(),
        in_range(all, n),
        forall|e: usize| e < n ==> all.contains(e),
        0 <= k <= all.len(),
    ensures
        is_partition(all.take(k), all.skip(k), n),
{
    let sel = all.take(k);
    let unsel = all.skip(k);
    assert forall|e: usize| e < n implies (#[trigger] sel.contains(e) <==> !unsel.contains(e)) by {
        assert(all.contains(e));
        let t = choose|t: int| 0 <= t < all.len() && all[t] == e;
        if t < k {
            assert(sel[t] == e);
            if unsel.contains(e) {
                let u = choose|u: int| 0 <= u < unsel.len() && unsel[u] == e;
                assert(all[u + k] == e);
            }
        } else {
            assert(unsel[t - k] == e);
            if sel.contains(e) {
                let u = choose|u: int| 0 <= u < sel.len() && sel[u] == e;
                assert(all[u] == e);
            }
        }
    }
}

/// A selection and its complement form a partition.
pub proof fn lemma_complement_is_partition(sel: Seq<usize>, unsel: Seq<usize>, n: usize)
    requires
        in_range(sel, n),
        sel.no_duplicates(),
        is_complement(unsel, sel, n),
    ensures
        is_partition(sel, unsel, n),
{
    assert forall|t: int| 0 <= t < unsel.len() implies #[trigger] unsel[t] < n by {
        assert(unsel.contains(unsel[t]));
    }
    assert forall|e: usize| e < n implies (#[trigger] sel.contains(e) <==> !unsel.contains(e)) by {
        assert(unsel.contains(e) <==> (e < n && !sel.contains(e)));
    }
}

/// Moving the element at position `p` of the complement to the end of the
/// selection gives a partition again.
pub proof fn lemma_move_keeps_partition(sel: Seq<usize>, unsel: Seq<usize>, n: usize, p: int)
    requires
        is_partition(sel, unsel, n),
        0 <= p < unsel.len(),
    ensures
        is_partition(sel.push(unsel[p]), unsel.remove(p), n),
{
    let moved = unsel[p];
    let s = sel.push(moved);
    let u = unsel.remove(p);
    assert(unsel.contains(moved));
    assert(!sel.contains(moved));
    assert(s.no_duplicates()) by {
        assert forall|a: int, b: int| 0 <= a < s.len() && 0 <= b < s.len() && a != b implies s[a]
            != s[b] by {
            if a < sel.len() && b < sel.len() {
                assert(sel[a] != sel[b]);
            } else if a < sel.len() {
                assert(sel.contains(sel[a]));
            } else {
                assert(sel.contains(sel[b]));
            }
        }
    }
    assert(u.no_duplicates()) by {
        assert forall|a: int, b: int| 0 <= a < u.len() && 0 <= b < u.len() && a != b implies u[a]
            != u[b] by {
            let a0 = if a < p { a } else { a + 1 };
            let b0 = if b < p { b } else { b + 1 };
            assert(u[a] == unsel[a0] && u[b] == unsel[b0]);
        }
    }
    assert forall|t: int| 0 <= t < u.len() implies #[trigger] u[t] < n by {
        let t0 = if t < p { t } else { t + 1 };
        assert(u[t] == unsel[t0]);
    }
    assert forall|e: usize| e < n implies (#[trigger] s.contains(e) <==> !u.contains(e)) by {
        if u.contains(e) {
            let t = choose|t: int| 0 <= t < u.len() && u[t] == e;
            let t0 = if t < p { t } else { t + 1 };
            assert(unsel[t0] == e);
            assert(unsel.contains(e));
            assert(e != moved);
            if s.contains(e) {
                let q = choose|q: int| 0 <= q < s.len() && s[q] == e;
                assert(sel[q] == e);
                assert(sel.contains(e));
            }
        } else {
            if e == moved {
                assert(s[sel.len() as int] == e);
            } else {
                if unsel.contains(e) {
                    let t = choose|t: int| 0 <= t < unsel.len() && unsel[t] == e;
                    if t < p {
                        assert(u[t] == e);
                    } else {
                        assert(u[t - 1] == e);
                    }
                }
                assert(sel.contains(e));
                let q = choose|q: int| 0 <= q < sel.len() && sel[q] == e;
                assert(s[q] == e);
            }
        }
    }
}

/// Whether `e` occurs in `items`.
pub fn contains(items: &[usize], e: usize) -> (found: bool)
    ensures
        found == items@.contains(e),
{
    let mut t: usize = 0;
    while t < items.len()
        invariant
            t <= items@.len(),
            forall|u: int| 0 <= u < t ==> items@[u] != e,
        decreases items@.len() - t,
    {
        if items[t] == e {
            return true;
        }
        t = t + 1;
    }
    false
}

/// The elements below `n` that `selected` lacks, in increasing order.
pub fn complement(selected: &[usize], n: usize) -> (unselected: Vec<usize>)
    ensures
        is_complement(unselected@, selected@, n),
{
    let mut unselected: Vec<usize> = Vec::new();
    let mut e: usize = 0;
    while e < n
        invariant
            e <= n,
            forall|a: int, b: int| 0 <= a < b < unselected@.len() ==> unselected@[a] < unselected@[b],
            forall|t: int| 0 <= t < unselected@.len() ==> unselected@[t] < e,
            forall|x: usize| #[trigger]
                unselected@.contains(x) <==> (x < e && !selected@.contains(x)),
        decreases n - e,
    {
        let ghost before = unselected@;
        if !contains(selected, e) {
            unselected.push(e);
            proof {
                assert forall|x: usize| #[trigger]
                    unselected@.contains(x) <==> (x < e + 1 && !selected@.contains(x)) by {
                    if unselected@.contains(x) {
                        let t = choose|t: int| 0 <= t < unselected@.len() && unselected@[t] == x;
                        if t < before.len() {
                            assert(before[t] == x);
                            assert(before.contains(x));
                        }
                    }
                    if x < e + 1 && !selected@.contains(x) {
                        if x < e {
                            assert(before.contains(x));
                            let t = choose|t: int| 0 <= t < before.len() && before[t] == x;
                            assert(unselected@[t] == x);
                        } else {
                            assert(unselected@[before.len() as int] == x);
                        }
                    }
                }
            }
        }
        e = e + 1;
    }
    unselected
}

/// The elements below `n` in increasing order.
pub fn identity_order(n: usize) -> (all: Vec<usize>)
    ensures
        all@.len() == n,
        forall|t: int| 0 <= t < n ==> all@[t] == t,
{
    let mut all: Vec<usize> = Vec::new();
    let mut e: usize = 0;
    while e < n
        invariant
            e <= n,
            all@.len() == e,
            forall|t: int| 0 <= t < e ==> all@[t] == t,
        decreases n - e,
    {
        all.push(e);
        e = e + 1;
    }
    all
}

/// A rearrangement of the elements below `n` is free of duplicates and
/// holds each of them.
pub proof fn lemma_rearranged_identity(all: Seq<usize>, base: Seq<usize>, n: usize)
    requires
        base.len() == n,
        forall|t: int| 0 <= t < n ==> base[t] == t,
        all.to_multiset() == base.to_multiset(),
    ensures
        all.len() == n,
        all.no_duplicates(),
        in_range(all, n),
        forall|e: usize| e < n ==> all.contains(e),
{
    broadcast use vstd::seq_lib::group_to_multiset_ensures;

    all.to_multiset_ensures();
    base.to_multiset_ensures();
    assert(base.no_duplicates());
    base.lemma_multiset_has_no_duplicates();
    all.lemma_multiset_has_no_duplicates_conv();
    assert forall|t: int| 0 <= t < all.len() implies #[trigger] all[t] < n by {
        assert(all.contains(all[t]));
        assert(base.to_multiset().count(all[t]) > 0);
        assert(base.contains(all[t]));
    }
    assert forall|e: usize| e < n implies all.contains(e) by {
        assert(base[e as int] == e);
        assert(base.contains(e));
        assert(all.to_multiset().count(e) > 0);
    }
}

/// A uniformly shuffled listing of the elements below `n`, cut after the
/// first `k`: the selection and the rest.
pub fn random_partition(n: usize, k: usize, rng: &mut StdRng) -> (parts: (Vec<usize>, Vec<usize>))
    requires
        k <= n,
    ensures
        is_selection(parts.0@, n, k),
        is_partition(parts.0@, parts.1@, n),
{
    let mut all = identity_order(n);
    let ghost base = all@;
    shuffle(&mut all, rng);
    proof {
        lemma_rearranged_identity(all@, base, n);
        lemma_split_is_partition(all@, n, k as int);
    }
    let rest = all.split_off(k);
    (all, rest)
}

} // verus!
