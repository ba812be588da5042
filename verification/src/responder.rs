//! Fixed-point probabilities: parts of a million.
use vstd::prelude::*;

verus! {

/// How many parts make a probability of one.
pub const PROBABILITY_SCALE: u32 = 1_000_000;

/// A probability in parts of [`PROBABILITY_SCALE`], never above it.
#[derive(Clone, Copy, Debug, PartialEq, Eq, Structural)]
pub struct Probability(u32);

impl Probability {
    /// Its parts.
    pub closed spec fn spec_parts(self) -> u32 {
        self.0
    }

    #[verifier::type_invariant]
    closed spec fn bounded(self) -> bool {
        self.0 <= PROBABILITY_SCALE
    }

    /// The probability of `parts` parts, if that is not above the scale.
    pub fn new(parts: u32) -> (r: Option<Probability>)
        ensures
            parts <= PROBABILITY_SCALE <==> r is Some,
            r matches Some(p) ==> p.spec_parts() == parts,
    {
        if parts <= PROBABILITY_SCALE {
            Some(Probability(parts))
        } else {
            None
        }
    }

    /// Nothing.
    pub fn zero() -> (r: Probability)
        ensures
            r.spec_parts() == 0,
    {
        Probability(0)
    }

    /// Certainty.
    pub fn one() -> (r: Probability)
        ensures
            r.spec_parts() == PROBABILITY_SCALE,
    {
        Probability(PROBABILITY_SCALE)
    }

    /// Its parts, never above the scale.
    pub fn parts(&self) -> (r: u32)
        ensures
            r == self.spec_parts(),
            r <= PROBABILITY_SCALE,
    {
        proof {
            use_type_invariant(self);
        }
        self.0
    }
}

} // verus!
