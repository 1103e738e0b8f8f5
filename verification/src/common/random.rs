//! The source of random numbers.

use vstd::prelude::*;

verus! {

#[verifier::external_type_specification]
#[verifier::external_body]
pub struct ExStdRng(rand::rngs::StdRng);

/// `rand::RngCore::next_u64` on the standard generator: the next 64 random
/// bits. Nothing is known of their value.
#[verifier::external_body]
pub(crate) fn next_sample(rng: &mut rand::rngs::StdRng) -> (sample: u64) {
    rand::RngCore::next_u64(rng)
}

} // verus!
