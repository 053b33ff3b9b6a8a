//! The random source that every stochastic operator draws from.
use rand::Rng;
use vstd::prelude::*;

verus! {

/// rand's seedable generator, carried through the library as an opaque value.
#[verifier::external_type_specification]
#[verifier::external_body]
pub struct ExStdRng(rand::rngs::StdRng);

/// Relies on rand's `Rng::gen_range`: a value drawn uniformly from
/// `[low, high)`, which panics unless `low < high`.
#[verifier::external_body]
pub(crate) fn draw_below(rng: &mut rand::rngs::StdRng, low: usize, high: usize) -> (r: usize)
    requires
        low < high,
    ensures
        low <= r < high,
{
    rng.gen_range(low, high)
}

} // verus!
