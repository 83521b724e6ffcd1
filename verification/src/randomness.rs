//! Randomness sources: the machine generator behind the lottery's draw, and
//! a seedable pseudo-random step for deterministic runs. A verifiable
//! random function can replace either without touching the lottery.

use vstd::prelude::*;

verus! {

/// Relies on rand::random: a machine-random value. Nothing can be promised
/// of it.
#[verifier::external_body]
pub fn generate_random_number() -> u64 {
    rand::random::<u64>()
}

/// Relies on rand::random_range over `0..n`: a uniform value in that range.
/// The range must not be empty, or the call panics.
#[verifier::external_body]
pub fn draw_below(n: u64) -> (r: u64)
    requires
        n > 0,
    ensures
        r < n,
{
    rand::random_range(0..n)
}

/// One step of the seedable linear-congruential generator.
pub open spec fn next_seed(s: u64) -> u64 {
    (((s as int) * 6364136223846793005 + 1442695040888963407) % 0x1_0000_0000_0000_0000) as u64
}

/// The seedable pseudo-random step for development and tests.
pub fn generate_random_number_vrf(seed: u64) -> (r: u64)
    ensures
        r == next_seed(seed),
{
    let wide: u128 = (seed as u128) * 6364136223846793005u128 + 1442695040888963407u128;
    (wide % 0x1_0000_0000_0000_0000u128) as u64
}

/// A seeded draw below `n`, taken from the generator's high bits.
pub fn vrf_in_range(seed: u64, n: u64) -> (r: u64)
    requires
        n > 0,
    ensures
        r == (next_seed(seed) >> 32) % n,
        r < n,
{
    (generate_random_number_vrf(seed) >> 32) % n
}

} // verus!
