//! The random source used for generation: a seeded ChaCha8 stream from
//! `rand_chacha`, sampled through `rand`'s `Rng` methods.
//!
//! Every item here is trusted: it makes one call into `rand` and states only
//! what holds of every outcome (a range where `rand` documents one).
use vstd::prelude::*;
use rand::Rng;
use rand::SeedableRng;
use rand_chacha::ChaCha8Rng;

verus! {

/// `rand_chacha::ChaCha8Rng`, carried through verified code as an opaque value.
#[verifier::external_type_specification]
#[verifier::external_body]
pub struct ExChaCha8Rng(ChaCha8Rng);

/// `<ChaCha8Rng as SeedableRng>::seed_from_u64`: a generator whose stream is
/// fixed by `seed`. Nothing is claimed about the state it holds.
#[verifier::external_body]
pub(crate) fn seeded_rng(seed: u64) -> ChaCha8Rng {
    ChaCha8Rng::seed_from_u64(seed)
}

/// `rand::random::<u64>()`: a seed drawn from the thread-local generator.
/// Any `u64` may come back.
#[verifier::external_body]
pub(crate) fn fresh_seed() -> u64 {
    rand::random::<u64>()
}

/// `Rng::gen::<bool>`: a fair coin. Either value may come back.
#[verifier::external_body]
pub(crate) fn draw_bool(rng: &mut ChaCha8Rng) -> bool {
    rng.gen::<bool>()
}

/// `Rng::gen::<u8>`: any byte.
#[verifier::external_body]
pub(crate) fn draw_u8(rng: &mut ChaCha8Rng) -> u8 {
    rng.gen::<u8>()
}

/// `Rng::gen::<u32>`: any `u32`.
#[verifier::external_body]
pub(crate) fn draw_u32(rng: &mut ChaCha8Rng) -> u32 {
    rng.gen::<u32>()
}

/// `Rng::gen::<i32>`: any `i32`.
#[verifier::external_body]
pub(crate) fn draw_i32(rng: &mut ChaCha8Rng) -> i32 {
    rng.gen::<i32>()
}

/// `Rng::gen::<u64>`: any `u64`.
#[verifier::external_body]
pub(crate) fn draw_u64(rng: &mut ChaCha8Rng) -> u64 {
    rng.gen::<u64>()
}

/// `Rng::gen::<i64>`: any `i64`.
#[verifier::external_body]
pub(crate) fn draw_i64(rng: &mut ChaCha8Rng) -> i64 {
    rng.gen::<i64>()
}

/// `Rng::gen_range` over `usize`, inclusive range `low..=high`: the value
/// lies in the range, which must not be empty (`rand` panics on an empty range).
#[verifier::external_body]
pub(crate) fn draw_usize_in(rng: &mut ChaCha8Rng, low: usize, high: usize) -> (r: usize)
    requires
        low <= high,
    ensures
        low <= r <= high,
{
    rng.gen_range(low..=high)
}

/// `Rng::gen_range` over `u32`, inclusive range `low..=high`.
#[verifier::external_body]
pub(crate) fn draw_u32_in(rng: &mut ChaCha8Rng, low: u32, high: u32) -> (r: u32)
    requires
        low <= high,
    ensures
        low <= r <= high,
{
    rng.gen_range(low..=high)
}

/// `Rng::gen_range` over `i32`, inclusive range `low..=high`.
#[verifier::external_body]
pub(crate) fn draw_i32_in(rng: &mut ChaCha8Rng, low: i32, high: i32) -> (r: i32)
    requires
        low <= high,
    ensures
        low <= r <= high,
{
    rng.gen_range(low..=high)
}

/// `Rng::gen_range` over `u8`, inclusive range `low..=high`.
#[verifier::external_body]
pub(crate) fn draw_u8_in(rng: &mut ChaCha8Rng, low: u8, high: u8) -> (r: u8)
    requires
        low <= high,
    ensures
        low <= r <= high,
{
    rng.gen_range(low..=high)
}

/// `Rng::gen_ratio`: `true` with probability `numerator / denominator`.
/// `rand` panics unless `numerator <= denominator` and `denominator > 0`;
/// a ratio of 0 always gives `false` and a ratio of 1 always gives `true`.
#[verifier::external_body]
pub(crate) fn draw_ratio(rng: &mut ChaCha8Rng, numerator: u32, denominator: u32) -> (r: bool)
    requires
        numerator <= denominator,
        denominator > 0,
    ensures
        numerator == 0 ==> !r,
        numerator == denominator ==> r,
{
    rng.gen_ratio(numerator, denominator)
}

} // verus!
