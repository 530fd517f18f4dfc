//! Exact probabilities as integer fractions of a fixed maximum.

use vstd::prelude::*;

use crate::Error;

verus! {

/// A probability between 0% and 100%, stored exactly.
///
/// The value is an integer fraction of a fixed maximum: 100% is represented
/// by [`u32::MAX`], 0% by `0`. Complement and comparison are therefore exact
/// and drift-free, no matter how often they are applied.
#[derive(Clone, Copy, Debug, PartialEq, Eq, Structural, PartialOrd, Ord, Hash)]
pub struct Probability {
    /// The raw fixed-point magnitude; 100% is represented by [`u32::MAX`].
    pub value: u32,
}

impl Probability {
    /// A probability of exactly 100%.
    pub fn one_hundred() -> (r: Self)
        ensures
            r.value == u32::MAX,
    {
        Self { value: u32::MAX }
    }

    /// A probability of exactly 0%.
    pub fn zero() -> (r: Self)
        ensures
            r.value == 0,
    {
        Self { value: 0 }
    }

    /// Builds a probability from its raw fixed-point magnitude.
    pub fn new(value: u32) -> (r: Self)
        ensures
            r.value == value,
    {
        Self { value }
    }

    /// The exact complement: the probability of the opposite outcome.
    pub fn complement(self) -> (r: Self)
        ensures
            r.value == u32::MAX - self.value,
    {
        Self { value: u32::MAX - self.value }
    }

    /// Builds a probability from a percentage given in hundredths of a
    /// percent, so `10000` means 100%. Percentages above 100% are rejected
    /// with a range error; no clamped value is ever produced.
    pub fn from_centipercent(centipercent: u32) -> (r: Result<Self, Error>)
        ensures
            centipercent <= 10000 <==> r is Ok,
            r is Ok ==> r->Ok_0.value == centipercent * u32::MAX / 10000,
            r is Err ==> r->Err_0 == Error::RangeError,
    {
        if centipercent > 10000 {
            Err(Error::RangeError)
        } else {
            let wide: u64 = centipercent as u64 * u32::MAX as u64 / 10000;
            proof {
                assert(centipercent * u32::MAX <= 10000 * u32::MAX) by (nonlinear_arith)
                    requires centipercent <= 10000;
                assert(centipercent * u32::MAX / 10000 <= 10000 * u32::MAX / 10000)
                    by (nonlinear_arith)
                    requires centipercent * u32::MAX <= 10000 * u32::MAX;
            }
            Ok(Self { value: wide as u32 })
        }
    }

    /// The percentage this probability stands for, in hundredths of a
    /// percent, rounded to the nearest representable value.
    pub fn to_centipercent(self) -> (r: u32)
        ensures
            r == (self.value * 10000 + u32::MAX / 2) / u32::MAX as int,
            r <= 10000,
    {
        let wide: u64 = (self.value as u64 * 10000 + u32::MAX as u64 / 2) / u32::MAX as u64;
        proof {
            assert(self.value * 10000 + u32::MAX / 2 <= 10000 * u32::MAX + u32::MAX / 2)
                by (nonlinear_arith)
                requires self.value <= u32::MAX;
            vstd::arithmetic::div_mod::lemma_fundamental_div_mod_converse(
                10000 * u32::MAX + u32::MAX / 2,
                u32::MAX as int,
                10000int,
                (u32::MAX / 2) as int,
            );
            vstd::arithmetic::div_mod::lemma_div_is_ordered(
                (self.value * 10000 + u32::MAX / 2) as int,
                (10000 * u32::MAX + u32::MAX / 2) as int,
                u32::MAX as int,
            );
        }
        wide as u32
    }

    /// Scales an integer magnitude by this probability's fraction,
    /// rounding down.
    pub fn scale(self, magnitude: u64) -> (r: u64)
        ensures
            r == magnitude * self.value / (u32::MAX as int),
    {
        proof {
            assert(magnitude * self.value <= u64::MAX * (u32::MAX as int)) by (nonlinear_arith)
                requires magnitude <= u64::MAX, self.value <= u32::MAX;
        }
        let wide: u128 = magnitude as u128 * self.value as u128 / u32::MAX as u128;
        proof {
            assert(magnitude * self.value / (u32::MAX as int) <= magnitude)
                by (nonlinear_arith)
                requires self.value <= u32::MAX, 0 <= magnitude;
        }
        wide as u64
    }
}

/// Taking the complement twice gives back the original probability, exactly.
pub proof fn lemma_complement_involution(p: Probability)
    ensures
        p.complement_spec().complement_spec() == p,
{
}

/// The complement of 100% is exactly 0%, and the complement of 0% is
/// exactly 100%.
pub proof fn lemma_complement_extremes()
    ensures
        (Probability { value: u32::MAX }).complement_spec() == (Probability { value: 0 }),
        (Probability { value: 0 }).complement_spec() == (Probability { value: u32::MAX }),
{
}

impl Probability {
    /// What `complement` returns.
    pub open spec fn complement_spec(self) -> Probability {
        Probability { value: (u32::MAX - self.value) as u32 }
    }
}

/// Round trip through the fixed-point representation is exact: building a
/// probability from a percentage (in hundredths of a percent) and reading
/// the percentage back yields the original value.
pub proof fn lemma_centipercent_round_trip(centipercent: u32)
    requires
        centipercent <= 10000,
    ensures
        (centipercent * u32::MAX / 10000 * 10000 + u32::MAX / 2) / (u32::MAX as int)
            == centipercent,
{
    let m = u32::MAX as int;
    let cp = centipercent as int;
    let v = cp * m / 10000;
    vstd::arithmetic::div_mod::lemma_fundamental_div_mod(cp * m, 10000);
    let rem = cp * m % 10000;
    assert(v * 10000 == cp * m - rem) by (nonlinear_arith)
        requires cp * m == 10000 * v + rem;
    assert(v * 10000 + m / 2 == cp * m + (m / 2 - rem));
    vstd::arithmetic::div_mod::lemma_fundamental_div_mod_converse(
        v * 10000 + m / 2,
        m,
        cp,
        m / 2 - rem,
    );
}

} // verus!

