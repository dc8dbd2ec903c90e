//! Sources of randomness used at construction time.
//!
//! Hash seeds and the reservoir decision table are drawn once, when a hash
//! family or an index is built; nothing can be promised of the values drawn.

use vstd::prelude::*;

use rand::Rng;

verus! {

/// Relies on rand::thread_rng and rand::Rng::gen: a 32-bit word from the
/// thread-local generator. Nothing is promised of the value.
#[verifier::external_body]
pub(crate) fn random_u32() -> (r: u32) {
    rand::thread_rng().gen()
}

/// Relies on rand::thread_rng and rand::Rng::gen: a machine word from the
/// thread-local generator. Nothing is promised of the value.
#[verifier::external_body]
pub(crate) fn random_usize() -> (r: usize) {
    rand::thread_rng().gen()
}

} // verus!
