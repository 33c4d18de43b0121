//! A small deterministic generator of 64-bit values, for reproducible boards.

use vstd::prelude::*;

verus! {

/// The state that follows `state`: three shift-and-XOR steps (left by 13,
/// right by 7, left by 17), each on the result of the one before.
pub open spec fn xorshift(state: u64) -> u64 {
    let a = state ^ (state << 13u64);
    let b = a ^ (a >> 7u64);
    b ^ (b << 17u64)
}

/// An xorshift generator; the field is its state, and the seed at first.
pub struct Prng(pub u64);

impl Prng {
    /// Advances the state by one step and returns the new state. The stream
    /// depends on the seed alone.
    pub fn next(&mut self) -> (r: u64)
        ensures
            final(self).0 == xorshift(old(self).0),
            r == final(self).0,
    {
        self.0 ^= self.0 << 13;
        self.0 ^= self.0 >> 7;
        self.0 ^= self.0 << 17;
        self.0
    }
}

} // verus!
