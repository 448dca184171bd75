//! A seedable xorshift pseudo-random generator.
//!
//! The stream is a pure function of the seed, so every consumer
//! (node priorities in the treap, test-data generation) is
//! reproducible.

use vstd::prelude::*;

verus! {

/// The seed used by `Xorshift::new`.
pub const DEFAULT_SEED: u64 = 0xf0fb588ca2196dac;

/// One step of the xorshift-64 recurrence.
pub open spec fn xorshift_step(x: u64) -> u64 {
    let a = x ^ (x << 13);
    let b = a ^ (a >> 7);
    b ^ (b << 17)
}

/// A deterministic pseudo-random generator over 64-bit words.
#[derive(Clone, Copy, Debug)]
pub struct Xorshift {
    seed: u64,
}

impl Xorshift {
    /// The current state of the generator; the next draw is
    /// `xorshift_step` of this value.
    pub closed spec fn state(&self) -> u64 {
        self.seed
    }

    /// A generator with the library's fixed default seed.
    pub fn new() -> (g: Xorshift)
        ensures
            g.state() == DEFAULT_SEED,
    {
        Xorshift { seed: DEFAULT_SEED }
    }

    /// A generator with a caller-chosen seed, for reproducible runs.
    pub fn with_seed(seed: u64) -> (g: Xorshift)
        ensures
            g.state() == seed,
    {
        Xorshift { seed }
    }

    /// The next raw 64-bit value of the stream.
    pub fn next(&mut self) -> (r: u64)
        ensures
            r == xorshift_step(old(self).state()),
            final(self).state() == r,
    {
        let mut x = self.seed;
        x = x ^ (x << 13);
        x = x ^ (x >> 7);
        x = x ^ (x << 17);
        self.seed = x;
        x
    }

    /// A value uniform over `[0, m)`, drawn from the same stream.
    pub fn rand(&mut self, m: u64) -> (r: u64)
        requires
            m > 0,
        ensures
            r == xorshift_step(old(self).state()) % m,
            r < m,
            final(self).state() == xorshift_step(old(self).state()),
    {
        self.next() % m
    }
}

} // verus!
