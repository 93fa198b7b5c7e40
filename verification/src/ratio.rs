//! Fractions between 0 and 1, for probabilities and thresholds.

use vstd::prelude::*;

verus! {

/// The fraction `num / den`.
#[derive(Clone, Copy, Debug)]
pub struct Ratio {
    pub num: u32,
    pub den: u32,
}

impl Ratio {
    /// The fraction is defined and lies between 0 and 1.
    pub open spec fn wf(&self) -> bool {
        self.den > 0 && self.num <= self.den
    }

    /// `num / den`, when that is a fraction between 0 and 1.
    pub fn new(num: u32, den: u32) -> (ratio: Option<Ratio>)
        ensures
            ratio is Some <==> (den > 0 && num <= den),
            ratio matches Some(r) ==> r.num == num && r.den == den,
    {
        if den > 0 && num <= den {
            Some(Ratio { num, den })
        } else {
            None
        }
    }

    /// Whether the fraction is defined and lies between 0 and 1.
    pub fn is_valid(&self) -> (valid: bool)
        ensures
            valid == self.wf(),
    {
        self.den > 0 && self.num <= self.den
    }
}

} // verus!
