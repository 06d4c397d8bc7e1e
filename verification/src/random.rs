//! The one source of randomness: uniform draws of fixed-point numbers.

use crate::scalar::Scalar;
use rand::Rng;
use vstd::prelude::*;

verus! {

/// Calls `Rng::gen_range` of `rand` on the thread-local generator that
/// `rand::thread_rng` hands out, with the half-open range of raw values
/// `min.raw..max.raw`. The call panics on an empty range, which the
/// precondition leaves out; what it returns lies in the range. Nothing else
/// is claimed: two calls may differ. A thread's generator is seeded from the
/// operating system when the thread first asks for it, and `rand` panics
/// should that fail, whatever the arguments.
#[verifier::external_body]
pub(crate) fn uniform(min: Scalar, max: Scalar) -> (r: Scalar)
    requires
        min.raw < max.raw,
    ensures
        min.raw <= r.raw < max.raw,
{
    Scalar { raw: rand::thread_rng().gen_range(min.raw..max.raw) }
}

} // verus!
