//! The random draws the solvers make, each a call into the `rand` crate.
//! Every draw takes the generator as an argument, so a run that is given a
//! seeded generator can be repeated.

use rand::rngs::StdRng;
use rand::seq::SliceRandom;
use rand::{Rng, SeedableRng};
use vstd::prelude::*;

verus! {

/// `rand::rngs::StdRng`, the generator that is carried through a solver
/// run. Nothing is known of its state.
#[verifier::external_type_specification]
#[verifier::external_body]
pub struct ExStdRng(rand::rngs::StdRng);

/// `SeedableRng::from_rng` for `StdRng`, fed from `rand::rngs::OsRng`: a
/// generator freshly seeded by the system, or `None` when the system
/// cannot supply a seed. Nothing is claimed of either outcome.
#[verifier::external_body]
pub(crate) fn try_entropy_rng() -> (rng: Option<StdRng>) {
    StdRng::from_rng(rand::rngs::OsRng).ok()
}

/// `Rng::gen_range(0..bound)`: a uniformly drawn index. The call is only
/// made on a non-empty range, and the value drawn lies inside it.
#[verifier::external_body]
pub(crate) fn random_below(rng: &mut StdRng, bound: usize) -> (r: usize)
    requires
        bound > 0,
    ensures
        r < bound,
{
    rng.gen_range(0..bound)
}

/// `Rng::gen_ratio(num, den)`: `true` with probability `num / den`. The
/// crate documents the two certain cases: always `false` for a zero
/// numerator, always `true` when numerator and denominator agree.
#[verifier::external_body]
pub(crate) fn random_ratio(rng: &mut StdRng, num: u32, den: u32) -> (r: bool)
    requires
        den > 0,
        num <= den,
    ensures
        num == 0 ==> !r,
        num == den ==> r,
{
    rng.gen_ratio(num, den)
}

/// `SliceRandom::shuffle`: reorders the vector in place by swaps, so the
/// result holds the same elements, each as often as before.
#[verifier::external_body]
pub(crate) fn shuffle(items: &mut Vec<usize>, rng: &mut StdRng)
    ensures
        final(items)@.to_multiset() == old(items)@.to_multiset(),
{
    items.shuffle(rng);
}

} // verus!
