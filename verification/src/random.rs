//! Draws the random identifiers that keys carry.
use vstd::prelude::*;

verus! {

/// Calls `rand::random::<u64>()`, which draws a value from the thread-local
/// generator. Any `u64` may come back, so nothing is promised of it.
#[verifier::external_body]
pub(crate) fn random_u64() -> u64 {
    rand::random::<u64>()
}

/// Calls `rand::random::<u32>()`, which draws a value from the thread-local
/// generator. Any `u32` may come back, so nothing is promised of it.
#[verifier::external_body]
pub(crate) fn random_u32() -> u32 {
    rand::random::<u32>()
}

} // verus!
