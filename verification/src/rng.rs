//! The boundary to the outside pseudo-random sources. Every constructor that
//! draws a fresh vector takes an injected, seedable Mersenne-twister
//! generator, so runs are reproducible under a fixed seed; the majority-vote
//! tie break instead flips a coin on the thread-local generator, as the
//! voting rules document.
use vstd::prelude::*;
use mersenne_twister_rs::MersenneTwister;

verus! {

#[verifier::external_type_specification]
#[verifier::external_body]
pub struct ExMersenneTwister(MersenneTwister);

/// Relies on mersenne_twister_rs::MersenneTwister::new: builds the generator
/// seeded with `seed`.
#[verifier::external_body]
pub(crate) fn mt_new(seed: u32) -> MersenneTwister {
    MersenneTwister::new(seed)
}

/// Relies on mersenne_twister_rs::MersenneTwister::genrand_u32: draws the
/// next 32 pseudo-random bits. Nothing is promised of the value.
#[verifier::external_body]
pub(crate) fn mt_next_u32(rng: &mut MersenneTwister) -> u32 {
    rng.genrand_u32()
}

/// Relies on rand::random::<bool>: flips one fair coin on the thread-local
/// generator. Nothing is promised of the value.
#[verifier::external_body]
pub(crate) fn coin() -> bool {
    rand::random::<bool>()
}

} // verus!
