//! The trusted boundary to the injected random source: the capability to
//! draw a uniform random byte and to shuffle a vector of indices. The source
//! is rand's StdRng, which a caller can seed for reproducible runs or create
//! from OS entropy.

use vstd::prelude::*;
use rand::Rng;
use rand::seq::SliceRandom;

verus! {

#[verifier::external_type_specification]
#[verifier::external_body]
pub struct ExStdRng(rand::rngs::StdRng);

/// Relies on rand's Rng::gen for u8: one uniform random byte. Nothing can be
/// promised of its value.
#[verifier::external_body]
pub fn random_byte(rng: &mut rand::rngs::StdRng) -> u8 {
    rng.gen()
}

/// Relies on rand's SliceRandom::shuffle: it reorders the slice in place by
/// swapping elements, so whatever order comes out, the multiset of elements
/// and the length are unchanged.
#[verifier::external_body]
pub fn shuffle_indices(v: &mut Vec<usize>, rng: &mut rand::rngs::StdRng)
    ensures
        final(v)@.to_multiset() == old(v)@.to_multiset(),
        final(v)@.len() == old(v)@.len(),
{
    v.shuffle(rng);
}

} // verus!
