//! The injected random-source capability.
//!
//! The engine never constructs or owns a random generator: every operator call
//! borrows one through the [`Rng`] trait, so a whole evolutionary run can be
//! reproduced under a fixed seed owned by the caller. Nothing is promised of
//! the drawn values themselves; the helpers below turn raw draws into the
//! bounded values the operators need, and their contracts state only what
//! holds of every outcome.

use vstd::prelude::*;

verus! {

/// Probabilities are fixed-point fractions of this scale: a probability
/// parameter `p` stands for `p / PROB_ONE`, so `0` never applies an operator
/// and `PROB_ONE` always does.
pub const PROB_ONE: u32 = 1000000;

/// A uniform random source. Implementations are supplied by the caller; the
/// engine only draws from them.
pub trait Rng {
    /// Draws a uniformly distributed 32-bit value.
    fn next_u32(&mut self) -> u32;

    /// Draws a uniformly distributed 64-bit value.
    fn next_u64(&mut self) -> u64;

    /// Overwrites every byte of `dest` with random bytes.
    fn fill_bytes(&mut self, dest: &mut Vec<u8>)
        ensures
            final(dest)@.len() == old(dest)@.len(),
    ;
}

/// A small deterministic xorshift generator, handy for reproducible runs and
/// tests. The all-zero state is a fixed point of the xorshift step, so a zero
/// seed is replaced by an arbitrary nonzero constant.
pub struct XorShift64 {
    state: u64,
}

impl XorShift64 {
    /// Creates a generator from a seed; equal seeds give equal draw sequences.
    pub fn new(seed: u64) -> (r: Self) {
        if seed == 0 {
            XorShift64 { state: 0x9e3779b97f4a7c15u64 }
        } else {
            XorShift64 { state: seed }
        }
    }
}

impl Rng for XorShift64 {
    fn next_u32(&mut self) -> (r: u32) {
        let x = self.next_u64();
        let h = x >> 32;
        assert(h < 0x1_0000_0000u64) by (bit_vector)
            requires
                h == x >> 32u64,
        ;
        h as u32
    }

    fn next_u64(&mut self) -> (r: u64) {
        let mut x = self.state;
        x = x ^ (x << 13);
        x = x ^ (x >> 7);
        x = x ^ (x << 17);
        self.state = x;
        x
    }

    fn fill_bytes(&mut self, dest: &mut Vec<u8>) {
        let n = dest.len();
        let mut i: usize = 0;
        while i < n
            invariant
                dest@.len() == n,
                i <= n,
            decreases n - i,
        {
            let x = self.next_u64();
            let b = x & 0xff;
            assert(b < 256u64) by (bit_vector)
                requires
                    b == x & 0xffu64,
            ;
            dest.set(i, b as u8);
            i = i + 1;
        }
    }
}

/// Draws an index uniformly from `[0, n)`.
pub fn rand_index<R: Rng>(rng: &mut R, n: usize) -> (r: usize)
    requires
        n > 0,
    ensures
        r < n,
{
    let x = rng.next_u64();
    let m = x % (n as u64);
    m as usize
}

/// Flips a coin that comes up true with probability `p / PROB_ONE`.
/// A zero probability never fires and a full one always does.
pub fn coin<R: Rng>(rng: &mut R, p: u32) -> (r: bool)
    requires
        p <= PROB_ONE,
    ensures
        p == 0 ==> !r,
        p == PROB_ONE ==> r,
{
    let x = rng.next_u32();
    let d = x % PROB_ONE;
    d < p
}

} // verus!
