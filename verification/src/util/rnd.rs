//! The xorshift generator that drives every random choice of the search.

use vstd::prelude::*;

verus! {

/// The state from which a fresh generator starts.
pub const SEED: u64 = 88172645463325252;

/// The state of the generator.
pub struct Rng {
    pub state: u64,
}

/// The state that follows `s`: a left shift by 7 and a right shift by 9, each
/// folded in with exclusive or.
pub open spec fn step(s: u64) -> u64 {
    let t = s ^ (s << 7u64);
    t ^ (t >> 9u64)
}

/// The state of the generator after `n` draws from state `s`.
pub open spec fn after_draws(s: u64, n: nat) -> u64
    decreases n,
{
    if n == 0 {
        s
    } else {
        step(after_draws(s, (n - 1) as nat))
    }
}

/// The number drawn from state `s` for the range from `low` to `high`.
pub open spec fn ranged(s: u64, low: usize, high: usize) -> int {
    low + (step(s) as int) % (high - low)
}

impl Rng {
    /// A generator in its starting state.
    pub fn new() -> (rng: Rng)
        ensures
            rng.state == SEED,
    {
        Rng { state: SEED }
    }
}

/// Advances the generator and returns its new state.
pub fn next(rng: &mut Rng) -> (r: u64)
    ensures
        r == step(old(rng).state),
        final(rng).state == r,
{
    let s: u64 = rng.state;
    let t: u64 = s ^ (s << 7u64);
    let r: u64 = t ^ (t >> 9u64);
    rng.state = r;
    r
}

/// The low 32 bits of the next state: the numerator of a fraction of 2^32.
pub fn next_fraction(rng: &mut Rng) -> (r: u32)
    ensures
        r == step(old(rng).state) % 0x1_0000_0000,
        final(rng).state == step(old(rng).state),
{
    let x: u64 = next(rng);
    let low: u64 = x & 0xffff_ffff;
    assert(x & 0xffff_ffff == x % 0x1_0000_0000) by (bit_vector);
    low as u32
}

/// Draws a number that is at least `low` and below `high`.
pub fn gen_range(rng: &mut Rng, low: usize, high: usize) -> (r: usize)
    requires
        low < high,
    ensures
        low <= r < high,
        r == ranged(old(rng).state, low, high),
        final(rng).state == step(old(rng).state),
{
    let span: u64 = (high - low) as u64;
    let x: u64 = next(rng);
    let offset: u64 = x % span;
    offset as usize + low
}

} // verus!
