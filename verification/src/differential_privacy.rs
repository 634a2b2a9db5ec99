//! Differential privacy: the xorshift64 generator that the noise samplers draw
//! their randomness from.

use vstd::prelude::*;

verus! {

/// One step of the xorshift64 generator on a state, as the generator defines it:
/// shift-xor by 13 to the left, 7 to the right, then 17 to the left.
pub open spec fn xorshift64_step(x: u64) -> u64 {
    let a = x ^ ((x << 13u64) as u64);
    let b = a ^ (a >> 7u64);
    b ^ ((b << 17u64) as u64)
}

/// Advances the xorshift64 state and returns the new state.
pub fn xorshift64(state: &mut u64) -> (r: u64)
    ensures
        r == xorshift64_step(*old(state)),
        *final(state) == r,
        *old(state) != 0 ==> r != 0,
{
    let mut x = *state;
    x ^= x << 13u64;
    x ^= x >> 7u64;
    x ^= x << 17u64;
    proof {
        let s = *old(state);
        assert(s != 0 ==> xorshift64_step(s) != 0) by (bit_vector);
    }
    *state = x;
    x
}

} // verus!
