//! The seeded, deterministic pseudo-random source that every strategy draws
//! from (an xorshift generator on 64-bit state).
use vstd::prelude::*;

verus! {

/// State used in place of a zero seed, which xorshift would never leave.
pub const ZERO_SEED_STATE: u64 = 0x9E37_79B9_7F4A_7C15;

/// One xorshift step.
pub open spec fn xorshift(x: u64) -> u64 {
    let a = x ^ (x << 13u64);
    let b = a ^ (a >> 7u64);
    b ^ (b << 17u64)
}

/// Initial generator state for a seed.
pub open spec fn seed_state(seed: u64) -> u64 {
    if seed == 0 {
        ZERO_SEED_STATE
    } else {
        seed
    }
}

/// Generator state after `k` steps from `start`.
pub open spec fn state_after(start: u64, k: nat) -> u64
    decreases k,
{
    if k == 0 {
        start
    } else {
        xorshift(state_after(start, (k - 1) as nat))
    }
}

/// The `k`-th value (from 0) drawn from a generator seeded with `seed`.
pub open spec fn random_value(seed: u64, k: nat) -> u64 {
    state_after(seed_state(seed), k + 1)
}

/// A xorshift generator.
#[derive(Debug)]
pub struct Rng {
    pub state: u64,
}

impl Rng {
    pub fn seeded(seed: u64) -> (r: Rng)
        ensures
            r.state == seed_state(seed),
    {
        if seed == 0 {
            Rng { state: ZERO_SEED_STATE }
        } else {
            Rng { state: seed }
        }
    }

    /// Advances the generator one step and returns the new state.
    pub fn next_u64(&mut self) -> (r: u64)
        ensures
            final(self).state == xorshift(old(self).state),
            r == final(self).state,
    {
        let x = self.state;
        let a = x ^ (x << 13u64);
        let b = a ^ (a >> 7u64);
        self.state = b ^ (b << 17u64);
        self.state
    }

    /// Draws a number below `n`.
    pub fn below(&mut self, n: usize) -> (r: usize)
        requires
            n > 0,
        ensures
            final(self).state == xorshift(old(self).state),
            r as int == final(self).state as int % n as int,
            r < n,
    {
        let v = self.next_u64();
        (v % (n as u64)) as usize
    }
}

/// The source of the values that the program under test asks for: a
/// generator together with the seed it started from and the number of values
/// handed out since.
pub struct DataSource {
    pub seed: u64,
    pub rng: Rng,
    pub drawn: Ghost<nat>,
}

impl DataSource {
    pub open spec fn wf(&self) -> bool {
        self.rng.state == state_after(seed_state(self.seed), self.drawn@)
    }

    pub fn new(seed: u64) -> (r: DataSource)
        ensures
            r.wf(),
            r.seed == seed,
            r.drawn@ == 0,
    {
        DataSource { seed, rng: Rng::seeded(seed), drawn: Ghost(0) }
    }

    /// Hands out the next value of the sequence that `seed` determines.
    pub fn next_u64(&mut self) -> (r: u64)
        requires
            old(self).wf(),
        ensures
            final(self).wf(),
            final(self).seed == old(self).seed,
            final(self).drawn@ == old(self).drawn@ + 1,
            r == random_value(old(self).seed, old(self).drawn@),
    {
        let r = self.rng.next_u64();
        self.drawn = Ghost(self.drawn@ + 1);
        r
    }
}

} // verus!
