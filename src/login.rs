//! A log-in gate driven by a seeded random number: numbers under 50 are
//! let in, and each retry draws again under the next seed.
use vstd::prelude::*;
use tinyrand::{Rand, Seeded, StdRand};

verus! {

/// The first number drawn from tinyrand's standard generator seeded with `seed`.
pub uninterp spec fn wyrand_first(seed: u64) -> u64;

/// The first number below `lim` drawn from tinyrand's standard generator
/// seeded with `seed`.
pub uninterp spec fn wyrand_below(seed: u64, lim: usize) -> usize;

/// Relies on tinyrand's `StdRand::seed` and `Rand::next_u64`: the generator
/// holds the seed alone, so the number depends on the seed alone.
#[verifier::external_body]
fn first_u64(seed: u64) -> (r: u64)
    ensures
        r == wyrand_first(seed),
{
    let mut rand = StdRand::seed(seed);
    rand.next_u64()
}

/// Relies on tinyrand's `StdRand::seed` and `Rand::next_lim_usize`: a number
/// in `0..lim` (a zero limit fails its assertion), depending on the seed and
/// the limit alone.
#[verifier::external_body]
fn first_below(seed: u64, lim: usize) -> (r: usize)
    requires
        lim > 0,
    ensures
        r < lim,
        r == wyrand_below(seed, lim),
{
    let mut rand = StdRand::seed(seed);
    rand.next_lim_usize(lim)
}

/// A number in `0..100` drawn under `seed`.
pub fn get_rand_wseed(seed: u64) -> (r: usize)
    ensures
        r < 100,
        r == wyrand_below(seed, 100),
{
    first_below(seed, 100)
}

/// A starting seed: the first number of the default generator, which is the
/// one seeded with zero.
pub fn get_rand() -> (r: u64)
    ensures
        r == wyrand_first(0),
{
    first_u64(0)
}

/// Whether a drawn number lets the user in: numbers under 50 do.
pub fn is_logged_in(number: usize) -> (r: bool)
    ensures
        r == (number < 50),
{
    number < 50
}

/// A log-in gate: a seed and the random number that goes with it.
pub struct LoginGate {
    seed: u64,
    number: usize,
}

impl LoginGate {
    pub closed spec fn seed_spec(&self) -> u64 {
        self.seed
    }

    pub closed spec fn number_spec(&self) -> usize {
        self.number
    }

    /// The number is the one drawn under the seed.
    pub closed spec fn wf(&self) -> bool {
        self.number < 100 && self.number == wyrand_below(self.seed, 100)
    }

    /// A gate that draws under `seed`.
    pub fn new(seed: u64) -> (r: Self)
        ensures
            r.wf(),
            r.seed_spec() == seed,
            r.number_spec() == wyrand_below(seed, 100),
    {
        LoginGate { seed, number: get_rand_wseed(seed) }
    }

    /// Draws again under the next seed, wrapping at the largest one.
    pub fn reroll(&mut self)
        ensures
            final(self).wf(),
            final(self).seed_spec() == (if old(self).seed_spec() == u64::MAX {
                0
            } else {
                (old(self).seed_spec() + 1) as u64
            }),
            final(self).number_spec() == wyrand_below(final(self).seed_spec(), 100),
    {
        self.seed = if self.seed == u64::MAX {
            0
        } else {
            self.seed + 1
        };
        self.number = get_rand_wseed(self.seed);
    }

    pub fn number(&self) -> (r: usize)
        requires
            self.wf(),
        ensures
            r == self.number_spec(),
            r < 100,
            r == wyrand_below(self.seed_spec(), 100),
    {
        self.number
    }

    pub fn seed(&self) -> (r: u64)
        ensures
            r == self.seed_spec(),
    {
        self.seed
    }

    /// Whether the number drawn under the current seed lets the user in.
    pub fn logged_in(&self) -> (r: bool)
        ensures
            r == (self.number_spec() < 50),
    {
        is_logged_in(self.number)
    }
}

} // verus!
