//! The combined novelty score of a sample and its deterministic total order.

use vstd::prelude::*;

use crate::probability::Probability;

verus! {

/// How valuable one sample is to the recipient: its raw geometric importance
/// weighted by the probability that the recipient does not yet have it.
#[derive(Clone, Copy, Debug, PartialEq, Eq, Structural, Hash)]
pub struct Novelty {
    /// Raw geometric importance, as a fixed-point length (scaled by
    /// [`crate::SCALE`]).
    pub distance: u64,
    /// The probability that the recipient does not have this sample yet.
    pub probability_not_transmitted: Probability,
    /// The identity of the sample being scored.
    pub id: u64,
}

impl Novelty {
    /// What `score` returns: the product of the raw geometric importance and
    /// the probability fraction's magnitude.
    pub open spec fn score_spec(self) -> int {
        self.distance * self.probability_not_transmitted.value
    }

    /// The combined score: geometric importance times the fixed-point
    /// magnitude of the probability that the sample has not been transmitted.
    ///
    /// The product is exact; it carries a factor of [`u32::MAX`] compared to
    /// the probability-weighted distance itself, which cancels in every
    /// comparison.
    pub fn score(&self) -> (r: u128)
        ensures
            r == self.score_spec(),
    {
        proof {
            assert(self.distance * self.probability_not_transmitted.value
                <= u64::MAX * (u32::MAX as int)) by (nonlinear_arith)
                requires
                    self.distance <= u64::MAX,
                    self.probability_not_transmitted.value <= u32::MAX;
        }
        self.distance as u128 * self.probability_not_transmitted.value as u128
    }

    /// The strict total order on novelty: by score, then by probability not
    /// transmitted, then by sample identity.
    ///
    /// Because every component is an exact integer, the order is total and
    /// deterministic; two novelties are unordered only when score,
    /// probability and identity all coincide.
    pub open spec fn lt_spec(a: Novelty, b: Novelty) -> bool {
        ||| a.score_spec() < b.score_spec()
        ||| (a.score_spec() == b.score_spec()
            && a.probability_not_transmitted.value < b.probability_not_transmitted.value)
        ||| (a.score_spec() == b.score_spec()
            && a.probability_not_transmitted.value == b.probability_not_transmitted.value
            && a.id < b.id)
    }

    /// Two novelties that rank identically: equal score, equal probability,
    /// equal sample identity.
    pub open spec fn ranks_with(a: Novelty, b: Novelty) -> bool {
        &&& a.score_spec() == b.score_spec()
        &&& a.probability_not_transmitted.value == b.probability_not_transmitted.value
        &&& a.id == b.id
    }

    /// Decides whether `self` ranks strictly below `other`.
    pub fn lt(&self, other: &Novelty) -> (r: bool)
        ensures
            r == Novelty::lt_spec(*self, *other),
    {
        let a = self.score();
        let b = other.score();
        if a != b {
            a < b
        } else if self.probability_not_transmitted.value
            != other.probability_not_transmitted.value {
            self.probability_not_transmitted.value < other.probability_not_transmitted.value
        } else {
            self.id < other.id
        }
    }

    /// Decides whether `self` and `other` rank identically.
    pub fn ties_with(&self, other: &Novelty) -> (r: bool)
        ensures
            r == Novelty::ranks_with(*self, *other),
    {
        self.score() == other.score()
            && self.probability_not_transmitted.value == other.probability_not_transmitted.value
            && self.id == other.id
    }
}

/// The novelty order is a strict total order: of two novelties, either one
/// ranks below the other or they rank identically, and never both.
pub proof fn lemma_novelty_order_total(a: Novelty, b: Novelty)
    ensures
        Novelty::lt_spec(a, b) || Novelty::lt_spec(b, a) || Novelty::ranks_with(a, b),
        Novelty::lt_spec(a, b) ==> !Novelty::lt_spec(b, a) && !Novelty::ranks_with(a, b),
        Novelty::ranks_with(a, b) ==> !Novelty::lt_spec(a, b) && !Novelty::lt_spec(b, a),
{
}

/// The novelty order is transitive.
pub proof fn lemma_novelty_order_trans(a: Novelty, b: Novelty, c: Novelty)
    requires
        Novelty::lt_spec(a, b),
        Novelty::lt_spec(b, c),
    ensures
        Novelty::lt_spec(a, c),
{
}

} // verus!
