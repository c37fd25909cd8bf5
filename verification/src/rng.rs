//! The injectable randomness interface. All stochastic choices of the search
//! go through one `RandomSource`, never a hidden global generator, so a run
//! can be replayed exactly by injecting a seeded source.

use vstd::prelude::*;

verus! {

/// A source of the random decisions the search needs. Nothing is promised
/// about the distribution of the answers; only the bounds that callers rely
/// on are stated.
pub trait RandomSource {
    /// Decide an event that should happen with probability `num / den`. A
    /// certain event — a chance of at least one — always happens; beyond
    /// that, nothing is promised of the outcome.
    fn coin(&mut self, num: u64, den: u64) -> (r: bool)
        requires
            den >= 1,
        ensures
            num >= den ==> r,
    ;

    /// An index below `n`.
    fn pick(&mut self, n: usize) -> (r: usize)
        requires
            n >= 1,
        ensures
            r < n,
    ;

    /// Whether to accept a candidate that is worse by `delta`, at the given
    /// annealing temperature (the Metropolis rule, more likely the hotter).
    fn accept_worse(&mut self, delta: u64, temp: u64) -> bool;
}

/// A small deterministic generator, seedable and replayable, for tests and
/// reproducible runs: a 64-bit split-mix sequence.
pub struct SplitMix64 {
    state: u64,
}

impl SplitMix64 {
    /// A generator whose whole draw sequence is fixed by `seed`.
    pub fn new(seed: u64) -> SplitMix64 {
        SplitMix64 { state: seed }
    }

    /// The next raw 64-bit draw.
    pub fn next_u64(&mut self) -> u64 {
        self.state = self.state.wrapping_add(0x9e3779b97f4a7c15);
        let mut z = self.state;
        z = (z ^ (z >> 30)).wrapping_mul(0xbf58476d1ce4e5b9);
        z = (z ^ (z >> 27)).wrapping_mul(0x94d049bb133111eb);
        z ^ (z >> 31)
    }
}

impl RandomSource for SplitMix64 {
    fn coin(&mut self, num: u64, den: u64) -> (r: bool)
        ensures
            num >= den ==> r,
    {
        let d = self.next_u64();
        (d % den) < num
    }

    fn pick(&mut self, n: usize) -> (r: usize)
        ensures
            r < n,
    {
        let d = self.next_u64();
        let m = d % (n as u64);
        m as usize
    }

    /// A worse candidate is accepted with odds that fall as `delta` grows
    /// against `temp`: never at temperature zero, always when no worse.
    fn accept_worse(&mut self, delta: u64, temp: u64) -> bool {
        if temp == 0 {
            return false;
        }
        if delta >= temp {
            return false;
        }
        // Accept with probability about (temp - delta) / temp.
        let d = self.next_u64();
        (d % temp) < temp - delta
    }
}

} // verus!
