//! The source of randomness that the generators draw from.

use rand::rngs::StdRng;
use rand::seq::IteratorRandom;
use rand::Rng;
use vstd::prelude::*;

verus! {

/// `rand::rngs::StdRng`, the generator of `rand`, of which nothing is
/// known here but that it is a value.
#[verifier::external_type_specification]
#[verifier::external_body]
pub struct ExStdRng(StdRng);

/// A random number generator handed to every generation call.
///
/// Nothing is known about the numbers it yields beyond their range, so every
/// property proved of a generator holds for every sequence of draws.
pub struct RandomSource {
    rng: StdRng,
}

impl RandomSource {
    /// The generator that the numbers are drawn from.
    pub closed spec fn generator(&self) -> StdRng {
        self.rng
    }

    /// Wraps a generator that the caller has seeded.
    pub fn from_rng(rng: StdRng) -> (source: Self)
        ensures
            source.generator() == rng,
    {
        RandomSource { rng }
    }

    /// Calls `Rng::random_range` of `rand` on `0..bound`, which panics on an
    /// empty range and otherwise yields a number inside it.
    #[verifier::external_body]
    pub(crate) fn below(&mut self, bound: usize) -> (picked: usize)
        requires
            bound > 0,
        ensures
            picked < bound,
    {
        self.rng.random_range(0..bound)
    }

    /// Calls `Rng::random_range` of `rand` on `low..=high`, which panics on an
    /// empty range and otherwise yields a number inside it.
    #[verifier::external_body]
    pub(crate) fn between(&mut self, low: usize, high: usize) -> (picked: usize)
        requires
            low <= high,
        ensures
            low <= picked <= high,
    {
        self.rng.random_range(low..=high)
    }

    /// Calls `Rng::random` of `rand` for a `bool`: a fair coin.
    #[verifier::external_body]
    pub(crate) fn coin(&mut self) -> (heads: bool) {
        self.rng.random::<bool>()
    }

    /// Calls `Rng::random_ratio` of `rand`, which panics when the denominator is
    /// zero or smaller than the numerator, always says no for a zero numerator
    /// and always says yes when numerator and denominator are equal.
    #[verifier::external_body]
    pub(crate) fn ratio(&mut self, numerator: u32, denominator: u32) -> (hit: bool)
        requires
            denominator > 0,
            numerator <= denominator,
        ensures
            numerator == 0 ==> !hit,
            numerator == denominator ==> hit,
    {
        self.rng.random_ratio(numerator, denominator)
    }

    /// Calls `IteratorRandom::choose` of `rand` on the range `0..len`: nothing
    /// for an empty range, otherwise one of its numbers.
    #[verifier::external_body]
    pub(crate) fn choose_index(&mut self, len: usize) -> (picked: Option<usize>)
        ensures
            len == 0 <==> picked is None,
            picked is Some ==> picked->0 < len,
    {
        (0..len).choose(&mut self.rng)
    }
}

} // verus!
