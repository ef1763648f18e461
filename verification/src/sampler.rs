//! The level that a new feature is put on, drawn from a seeded generator.

use vstd::prelude::*;

verus! {

/// No feature is put on a layer above this one.
pub const MAX_LEVEL: usize = 32;

/// The state that follows `state`.
pub open spec fn advance(state: u64) -> u64 {
    state.wrapping_add(0x9E37_79B9_7F4A_7C15)
}

/// The number drawn in `state`.
pub open spec fn scramble(state: u64) -> u64 {
    let a = (state ^ (state >> 30)).wrapping_mul(0xBF58_476D_1CE4_E5B9);
    let b = (a ^ (a >> 27)).wrapping_mul(0x94D0_49BB_1331_11EB);
    b ^ (b >> 31)
}

/// The ratio between the numbers of features on one layer and on the next:
/// the degree `m`, and 2 where `m` is 1.
pub open spec fn branch_of(m: usize) -> u64 {
    if m < 2 {
        2
    } else {
        m as u64
    }
}

/// How often `r` can be divided by `branch` without remainder, up to `limit` times.
pub open spec fn height_of(r: u64, branch: u64, limit: nat) -> nat
    decreases limit,
{
    if limit == 0 || branch < 2 || r % branch != 0 {
        0
    } else {
        1 + height_of(r / branch, branch, (limit - 1) as nat)
    }
}

/// The level drawn in `state` for degree `m`.
pub open spec fn level_in(state: u64, m: usize) -> nat {
    height_of(scramble(state), branch_of(m), MAX_LEVEL as nat)
}

/// A generator of levels. Two samplers made from one seed draw the same levels.
#[derive(Clone, Copy, Debug)]
pub struct Sampler {
    state: u64,
}

impl Sampler {
    /// The state that the next level is drawn from.
    pub closed spec fn state(&self) -> u64 {
        self.state
    }

    /// A sampler that starts at `seed`.
    pub fn new(seed: u64) -> (s: Self)
        ensures
            s.state() == seed,
    {
        Sampler { state: seed }
    }

    /// Draws a number and moves on to the next state.
    pub fn next_u64(&mut self) -> (r: u64)
        ensures
            final(self).state() == advance(old(self).state()),
            r == scramble(final(self).state()),
    {
        self.state = self.state.wrapping_add(0x9E37_79B9_7F4A_7C15);
        let z = self.state;
        let a = (z ^ (z >> 30)).wrapping_mul(0xBF58_476D_1CE4_E5B9);
        let b = (a ^ (a >> 27)).wrapping_mul(0x94D0_49BB_1331_11EB);
        b ^ (b >> 31)
    }

    /// Draws the level of the next feature: level `l + 1` is about `m` times
    /// as rare as level `l`.
    pub fn next_level(&mut self, m: usize) -> (level: usize)
        ensures
            final(self).state() == advance(old(self).state()),
            level == level_in(final(self).state(), m),
            level <= MAX_LEVEL,
    {
        let r = self.next_u64();
        let branch: u64 = if m < 2 {
            2
        } else {
            m as u64
        };
        level_from(r, branch)
    }
}

/// How often `r` can be divided by `branch` without remainder, up to `MAX_LEVEL` times.
pub fn level_from(r: u64, branch: u64) -> (level: usize)
    requires
        branch >= 2,
    ensures
        level == height_of(r, branch, MAX_LEVEL as nat),
        level <= MAX_LEVEL,
{
    let mut level: usize = 0;
    let mut rest: u64 = r;
    while level < MAX_LEVEL && rest % branch == 0
        invariant
            branch >= 2,
            level <= MAX_LEVEL,
            height_of(r, branch, MAX_LEVEL as nat) == level + height_of(
                rest,
                branch,
                (MAX_LEVEL - level) as nat,
            ),
        decreases MAX_LEVEL - level,
    {
        rest = rest / branch;
        level += 1;
    }
    level
}

} // verus!
