//! Random-number primitives for image sampling.
//!
//! Sampling draws subset choices, prefix lengths and shuffles from a
//! pseudo-random generator.  Nothing is assumed about the values drawn
//! beyond their range; a shuffle is only known to permute its input.
//! Tests pin outputs by seeding the generator.

use vstd::prelude::*;

verus! {

/// Declares `fastrand::Rng` so that verified code can hold and pass the
/// generator; its state stays opaque.
#[verifier::external_type_specification]
#[verifier::external_body]
pub struct ExRng(fastrand::Rng);

/// Relies on `fastrand::Rng::new`: a generator seeded from the global
/// generator, itself seeded from process entropy.
#[verifier::external_body]
pub fn rng_new() -> fastrand::Rng {
    fastrand::Rng::new()
}

/// Relies on `fastrand::Rng::with_seed`: a generator in the exact state
/// the seed names, so that a run can be reproduced.
#[verifier::external_body]
pub fn rng_with_seed(seed: u64) -> fastrand::Rng {
    fastrand::Rng::with_seed(seed)
}

/// Relies on `fastrand::Rng::usize`: a value drawn from the non-empty
/// range `lo..hi`.  Nothing more is assumed of the value.
#[verifier::external_body]
pub fn rng_usize(rng: &mut fastrand::Rng, lo: usize, hi: usize) -> (r: usize)
    requires
        lo < hi,
    ensures
        lo <= r < hi,
{
    rng.usize(lo..hi)
}

/// Relies on `fastrand::Rng::bool`: a random bit.
#[verifier::external_body]
pub fn rng_bool(rng: &mut fastrand::Rng) -> bool {
    rng.bool()
}

/// Relies on `fastrand::Rng::shuffle`: the slice is permuted in place,
/// so the multiset of its elements is unchanged.
#[verifier::external_body]
pub fn rng_shuffle_usize(rng: &mut fastrand::Rng, v: &mut Vec<usize>)
    ensures
        final(v)@.len() == old(v)@.len(),
        final(v)@.to_multiset() == old(v)@.to_multiset(),
{
    rng.shuffle(v.as_mut_slice());
}

} // verus!
