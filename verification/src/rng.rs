//! The seeded generator that drives every random choice of the simulator.

use rand::rngs::StdRng;
use rand::{Rng, RngCore, SeedableRng};
use vstd::prelude::*;

verus! {

/// `rand`'s standard generator.
#[verifier::external_type_specification]
#[verifier::external_body]
pub struct ExStdRng(StdRng);

/// What a generator holds: its key and its place in the output stream.
pub uninterp spec fn rng_state(rng: StdRng) -> Seq<int>;

/// The state that `SeedableRng::seed_from_u64` builds.
pub uninterp spec fn seeded_state(seed: u64) -> Seq<int>;

/// The state that `SeedableRng::from_seed` builds.
pub uninterp spec fn keyed_state(seed: Seq<u8>) -> Seq<int>;

/// What `RngCore::next_u64` draws, and the state after it.
pub uninterp spec fn u64_draw(state: Seq<int>) -> (u64, Seq<int>);

/// What `Rng::random_range` draws from `lo..=hi`, and the state after it.
pub uninterp spec fn range_u16_draw(state: Seq<int>, lo: u16, hi: u16) -> (u16, Seq<int>);

/// What `Rng::random_range` draws from `lo..=hi`, and the state after it.
pub uninterp spec fn range_u64_draw(state: Seq<int>, lo: u64, hi: u64) -> (u64, Seq<int>);

/// What `Rng::random_ratio` draws, and the state after it.
pub uninterp spec fn ratio_draw(state: Seq<int>, numerator: u32, denominator: u32) -> (
    bool,
    Seq<int>,
);

/// `SeedableRng::seed_from_u64`: the generator's state is a function of the
/// seed.
#[verifier::external_body]
pub(crate) fn seed_from_u64(seed: u64) -> (rng: StdRng)
    ensures
        rng_state(rng) == seeded_state(seed),
{
    StdRng::seed_from_u64(seed)
}

/// `SeedableRng::from_seed`: the generator's state is a function of the seed.
#[verifier::external_body]
pub(crate) fn seed_from_bytes(seed: [u8; 32]) -> (rng: StdRng)
    ensures
        rng_state(rng) == keyed_state(seed@),
{
    StdRng::from_seed(seed)
}

/// `RngCore::next_u64`: the number and the next state are a function of the
/// state.
#[verifier::external_body]
pub(crate) fn random_u64(rng: &mut StdRng) -> (r: u64)
    ensures
        (r, rng_state(*final(rng))) == u64_draw(rng_state(*old(rng))),
{
    rng.next_u64()
}

/// `Rng::random_range` over `lo..=hi`: a number of the range, which together
/// with the next state is a function of the state and the range.
#[verifier::external_body]
pub(crate) fn random_range_u16(rng: &mut StdRng, lo: u16, hi: u16) -> (r: u16)
    requires
        lo <= hi,
    ensures
        lo <= r <= hi,
        (r, rng_state(*final(rng))) == range_u16_draw(rng_state(*old(rng)), lo, hi),
{
    rng.random_range(lo..=hi)
}

/// `Rng::random_range` over `lo..=hi`: a number of the range, which together
/// with the next state is a function of the state and the range.
#[verifier::external_body]
pub(crate) fn random_range_u64(rng: &mut StdRng, lo: u64, hi: u64) -> (r: u64)
    requires
        lo <= hi,
    ensures
        lo <= r <= hi,
        (r, rng_state(*final(rng))) == range_u64_draw(rng_state(*old(rng)), lo, hi),
{
    rng.random_range(lo..=hi)
}

/// `Rng::random_ratio`: `true` with probability `numerator / denominator`,
/// never at zero and always at one. The answer and the next state are a
/// function of the state and the ratio.
#[verifier::external_body]
pub(crate) fn random_ratio(rng: &mut StdRng, numerator: u32, denominator: u32) -> (r: bool)
    requires
        0 < denominator,
        numerator <= denominator,
    ensures
        numerator == 0 ==> !r,
        numerator == denominator ==> r,
        (r, rng_state(*final(rng))) == ratio_draw(rng_state(*old(rng)), numerator, denominator),
{
    rng.random_ratio(numerator, denominator)
}

} // verus!
