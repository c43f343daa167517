use vstd::prelude::*;
use rand::Rng;
use rand::rngs::ThreadRng;
use rand::seq::SliceRandom;

verus! {

#[verifier::external_type_specification]
#[verifier::external_body]
pub struct ExThreadRng(ThreadRng);

/// `rand::thread_rng`: the generator of the current thread, seeded by the
/// operating system. Nothing is claimed of the generator.
#[verifier::external_body]
pub(crate) fn thread_rng() -> ThreadRng {
    rand::thread_rng()
}

/// `Rng::gen_range(0..n)`: a value drawn from `0..n`. It is claimed to lie
/// below `n`; `gen_range` panics on an empty range, hence `n > 0`.
#[verifier::external_body]
pub(crate) fn gen_index(rng: &mut ThreadRng, n: usize) -> (r: usize)
    requires
        n > 0,
    ensures
        r < n,
{
    rng.gen_range(0..n)
}

/// `Rng::gen_range(low..=high)`: a value drawn from `low..=high`. It is
/// claimed to lie in that range; `gen_range` panics on an empty range, hence
/// `low <= high`.
#[verifier::external_body]
pub(crate) fn gen_inclusive(rng: &mut ThreadRng, low: u32, high: u32) -> (r: u32)
    requires
        low <= high,
    ensures
        low <= r <= high,
{
    rng.gen_range(low..=high)
}

/// `Rng::gen_ratio`: `true` with probability `numerator / denominator`. It is
/// claimed, as its documentation says, to be always `false` for a numerator
/// of 0 and always `true` for equal numerator and denominator; it panics for
/// a zero denominator or a numerator above the denominator.
#[verifier::external_body]
pub(crate) fn gen_ratio(rng: &mut ThreadRng, numerator: u32, denominator: u32) -> (r: bool)
    requires
        0 < denominator,
        numerator <= denominator,
    ensures
        numerator == 0 ==> !r,
        numerator == denominator ==> r,
{
    rng.gen_ratio(numerator, denominator)
}

/// `SliceRandom::shuffle`: permutes the positions in place. It is claimed
/// that the same positions remain, each as often as before (the source swaps
/// elements in place).
#[verifier::external_body]
pub(crate) fn shuffle_positions(rng: &mut ThreadRng, positions: &mut Vec<(u32, u32)>)
    ensures
        final(positions)@.to_multiset() == old(positions)@.to_multiset(),
        final(positions)@.len() == old(positions)@.len(),
{
    positions.shuffle(rng)
}

} // verus!
