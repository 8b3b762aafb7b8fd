//! The seedless 32-bit mixing hash that feeds the Feistel round function.
use vstd::prelude::*;

verus! {

/// Multiplier of the PCG state step.
pub const PCG_MULTIPLIER: u32 = 47_796_405;

/// Increment of the PCG state step.
pub const PCG_INCREMENT: u32 = 2_891_336_453;

/// Multiplier of the output permutation.
pub const PCG_OUTPUT_MULTIPLIER: u32 = 277_803_737;

/// One PCG state step, `x * PCG_MULTIPLIER + PCG_INCREMENT` modulo `2^32`.
pub open spec fn pcg_state(x: u32) -> u32 {
    ((x as int * PCG_MULTIPLIER + PCG_INCREMENT) % 0x1_0000_0000) as u32
}

/// The mixing hash: a PCG state step followed by a random xorshift, a
/// multiplication modulo `2^32` and a final xorshift by 22.
#[verifier::opaque]
pub open spec fn pcg_hash_spec(x: u32) -> u32 {
    let state = pcg_state(x);
    let shifted = state >> ((state >> 28u32) + 4);
    let word = (((shifted ^ state) as int * PCG_OUTPUT_MULTIPLIER) % 0x1_0000_0000) as u32;
    (word >> 22u32) ^ word
}

/// Hashes `input` with strong avalanche; all arithmetic wraps modulo `2^32`.
pub fn pcg_hash(input: u32) -> (r: u32)
    ensures
        r == pcg_hash_spec(input),
{
    let state = input.wrapping_mul(PCG_MULTIPLIER).wrapping_add(PCG_INCREMENT);
    assert(state >> 28u32 < 16) by (bit_vector);
    let shift: u32 = (state >> 28u32) + 4;
    let word = ((state >> shift) ^ state).wrapping_mul(PCG_OUTPUT_MULTIPLIER);
    proof {
        reveal(pcg_hash_spec);
    }
    (word >> 22u32) ^ word
}

} // verus!
