//! Sine, cosine and tangent of fixed-point numbers, by their power series.

use crate::scalar::{
    lemma_results_in_range, lemma_times_commutative, lemma_times_negated, lemma_times_zero, Scalar,
};
use vstd::prelude::*;

verus! {

/// Number of terms of each series after the first.
pub const TERMS: u32 = 10;

/// The divisor of the `k`-th term of a series relative to the term before:
/// `(2k)(2k + 1)` for the sine, `(2k - 1)(2k)` for the cosine.
pub open spec fn term_divisor(k: int, odd: bool) -> int {
    if odd {
        (2 * k) * (2 * k + 1)
    } else {
        (2 * k - 1) * (2 * k)
    }
}

/// The series from its `k`-th term on, in nested form:
/// `1 - x2/d_k (1 - x2/d_{k+1} (1 - ...))`, cut off after `TERMS` terms.
pub open spec fn series_spec(x2: Scalar, k: nat, odd: bool) -> Scalar
    decreases TERMS + 1 - k,
{
    if k > TERMS {
        Scalar::one()
    } else {
        Scalar::one().minus(
            x2.times(series_spec(x2, k + 1, odd)).over(
                Scalar::from_int(term_divisor(k as int, odd) as i64),
            ),
        )
    }
}

fn series(x2: Scalar, odd: bool) -> (r: Scalar)
    ensures
        r == series_spec(x2, 1, odd),
{
    let mut acc = Scalar::one();
    let mut k: u32 = TERMS;
    while k > 0
        invariant
            k <= TERMS,
            acc == series_spec(x2, (k + 1) as nat, odd),
        decreases k,
    {
        let twice: i64 = 2 * (k as i64);
        assert(twice * (twice + 1) <= 420 && (twice - 1) * twice <= 420) by (nonlinear_arith)
            requires
                2 <= twice <= 20,
        ;
        let divisor: i64 = if odd {
            twice * (twice + 1)
        } else {
            (twice - 1) * twice
        };
        acc = Scalar::one() - (x2 * acc) / Scalar::from_int(divisor);
        k = k - 1;
    }
    acc
}

impl Scalar {
    pub open spec fn spec_sin(self) -> Scalar {
        self.times(series_spec(self.times(self), 1, true))
    }

    /// Sine of an angle in radians: the series `x - x^3/3! + x^5/5! - ...` up
    /// to the power `2 TERMS + 1`, which is accurate for angles of a few
    /// radians at most.
    #[verifier::when_used_as_spec(spec_sin)]
    pub fn sin(self) -> (r: Scalar)
        ensures
            r == self.spec_sin(),
    {
        self * series(self * self, true)
    }

    pub open spec fn spec_cos(self) -> Scalar {
        series_spec(self.times(self), 1, false)
    }

    /// Cosine of an angle in radians: the series `1 - x^2/2! + x^4/4! - ...`
    /// up to the power `2 TERMS`, which is accurate for angles of a few
    /// radians at most.
    #[verifier::when_used_as_spec(spec_cos)]
    pub fn cos(self) -> (r: Scalar)
        ensures
            r == self.spec_cos(),
    {
        series(self * self, false)
    }

    pub open spec fn spec_tan(self) -> Scalar {
        self.spec_sin().over(self.spec_cos())
    }

    /// Tangent of an angle in radians: the sine over the cosine.
    #[verifier::when_used_as_spec(spec_tan)]
    pub fn tan(self) -> (r: Scalar)
        ensures
            r == self.spec_tan(),
    {
        self.sin() / self.cos()
    }
}

/// At zero every series is one.
pub proof fn lemma_series_at_zero(k: nat, odd: bool)
    ensures
        series_spec(Scalar::zero(), k, odd) == Scalar::one(),
    decreases TERMS + 1 - k,
{
    if k <= TERMS {
        lemma_series_at_zero(k + 1, odd);
        lemma_times_zero(Scalar::one());
    }
}

/// The sine and the tangent of zero are zero, and the cosine of zero is one.
pub proof fn lemma_trig_at_zero()
    ensures
        Scalar::zero().spec_sin() == Scalar::zero(),
        Scalar::zero().spec_cos() == Scalar::one(),
        Scalar::zero().spec_tan() == Scalar::zero(),
{
    lemma_times_zero(Scalar::zero());
    lemma_times_zero(Scalar::one());
    lemma_series_at_zero(1, true);
    lemma_series_at_zero(1, false);
}

/// The sine is odd and the cosine is even, for an angle in the range that
/// operations return.
pub proof fn lemma_trig_symmetry(x: Scalar)
    requires
        x.in_range(),
    ensures
        x.negated().spec_sin() == x.spec_sin().negated(),
        x.negated().spec_cos() == x.spec_cos(),
{
    lemma_times_negated(x, x);
    lemma_times_commutative(x, x.negated());
    lemma_times_negated(x.negated(), x);
    lemma_results_in_range(x, x);
    assert(x.negated().times(x.negated()) == x.times(x));
    let series = series_spec(x.times(x), 1, true);
    lemma_times_commutative(x.negated(), series);
    lemma_times_negated(series, x);
    lemma_times_commutative(series, x);
}

} // verus!
