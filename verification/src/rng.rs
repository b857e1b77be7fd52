//! The random source, `rand`'s seeded generator, and the few draws the
//! library makes from it.
use rand::seq::SliceRandom;
use rand::Rng;
use rand::SeedableRng;
use vstd::prelude::*;

verus! {

#[verifier::external_type_specification]
#[verifier::external_body]
pub struct ExStdRng(rand::rngs::StdRng);

/// `Rng::gen_range` on the inclusive range `lo..=hi`: a value of that range
/// (which one depends on the generator's state). `rand` panics on an empty range.
#[verifier::external_body]
pub(crate) fn gen_range_inclusive_u32(rng: &mut rand::rngs::StdRng, lo: u32, hi: u32) -> (r: u32)
    requires
        lo <= hi,
    ensures
        lo <= r <= hi,
{
    rng.gen_range(lo..=hi)
}

/// `Rng::gen_range` on the inclusive range `lo..=hi` of `i32`.
#[verifier::external_body]
pub(crate) fn gen_range_inclusive_i32(rng: &mut rand::rngs::StdRng, lo: i32, hi: i32) -> (r: i32)
    requires
        lo <= hi,
    ensures
        lo <= r <= hi,
{
    rng.gen_range(lo..=hi)
}

/// `Rng::gen_range` on the half-open range `0..len`: an index below `len`.
#[verifier::external_body]
pub(crate) fn gen_index(rng: &mut rand::rngs::StdRng, len: usize) -> (r: usize)
    requires
        len > 0,
    ensures
        r < len,
{
    rng.gen_range(0..len)
}

/// `Rng::gen_ratio(numerator, denominator)`: true with that chance. The
/// documentation promises `true` when the two are equal and `false` when the
/// numerator is zero; `rand` panics when the denominator is zero or smaller
/// than the numerator. Nothing more is stated of a given draw.
#[verifier::external_body]
pub(crate) fn gen_ratio(rng: &mut rand::rngs::StdRng, numerator: u32, denominator: u32) -> (r: bool)
    requires
        0 < denominator,
        numerator <= denominator,
    ensures
        numerator == denominator ==> r,
        numerator == 0 ==> !r,
{
    rng.gen_ratio(numerator, denominator)
}

/// `SliceRandom::shuffle`: permutes the cards in place; the same cards remain.
#[verifier::external_body]
pub(crate) fn shuffle_cards(cards: &mut Vec<u8>, rng: &mut rand::rngs::StdRng)
    ensures
        final(cards)@.len() == old(cards)@.len(),
        final(cards)@.to_multiset() == old(cards)@.to_multiset(),
{
    cards.shuffle(rng)
}

/// `SeedableRng::seed_from_u64`: a generator seeded from `seed`. Nothing is
/// stated of its state.
#[verifier::external_body]
pub(crate) fn seeded(seed: u64) -> (r: rand::rngs::StdRng) {
    rand::rngs::StdRng::seed_from_u64(seed)
}

} // verus!
