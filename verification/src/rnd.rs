//! Draws from a source of randomness.

use rand::Rng;
use rand::distributions::{Distribution, Standard, Uniform};
use vstd::prelude::*;

verus! {

/// `Rng::gen_range` of the crate rand, for `usize`: some value that is not
/// below `low` and is below `high`. The call panics where `low` is not below
/// `high`, so that is asked of the caller. It draws from `rng` until a word
/// comes that it can use. Nothing is said of which value comes, nor of what
/// becomes of `rng`. Trusted.
#[verifier::external_body]
pub(crate) fn gen_range<R: Rng>(rng: &mut R, low: usize, high: usize) -> (r: usize)
    requires
        low < high,
    ensures
        low <= r < high,
{
    rng.gen_range(low, high)
}

/// `Uniform::from` of the crate rand on the range from `low` to `high`, both
/// taken in, and one `sample` of it: some value from `low` to `high`. The
/// call panics where `high` is below `low`, so that is asked of the caller.
/// It draws from `rng` until a word comes that it can use. Trusted.
#[verifier::external_body]
pub(crate) fn sample_inclusive<R: Rng>(rng: &mut R, low: usize, high: usize) -> (r: usize)
    requires
        low <= high,
    ensures
        low <= r <= high,
{
    Uniform::from(low..=high).sample(rng)
}

/// `Rng::gen` of the crate rand: some value of `T`, of which nothing is
/// known. Trusted.
#[verifier::external_body]
pub(crate) fn gen_value<T, R: Rng>(rng: &mut R) -> (r: T) where Standard: Distribution<T> {
    rng.gen()
}

} // verus!
