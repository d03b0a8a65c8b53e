//! Reproducible random draws for structure placement, from rand's StdRng.
use vstd::prelude::*;
use rand::rngs::StdRng;
use rand::{Rng, SeedableRng};

verus! {

/// The first two values of rand's `StdRng` seeded with `seed`: a draw of
/// `gen_range(0..first_high)` followed by a draw of
/// `gen_range(second_low..second_high)`. A seeded `StdRng` gives the same
/// stream for the same seed.
pub uninterp spec fn seeded_draws(seed: u64, first_high: u32, second_low: u32, second_high: u32) -> (
    u32,
    u32,
);

/// Relies on rand's `SeedableRng::seed_from_u64` for `StdRng` and on two
/// calls of `Rng::gen_range` on it, each giving a value in its half-open
/// range; `gen_range` panics on an empty range, which `requires` rules out.
#[verifier::external_body]
pub(crate) fn draw_two(seed: u64, first_high: u32, second_low: u32, second_high: u32) -> (r: (
    u32,
    u32,
))
    requires
        0 < first_high,
        second_low < second_high,
    ensures
        r == seeded_draws(seed, first_high, second_low, second_high),
        r.0 < first_high,
        second_low <= r.1 < second_high,
{
    let mut rng = StdRng::seed_from_u64(seed);
    let first = rng.gen_range(0..first_high);
    let second = rng.gen_range(second_low..second_high);
    (first, second)
}

} // verus!
