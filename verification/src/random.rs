//! The source of the masking bits: the thread-local generator of `rand`.

use rand::Rng;
use vstd::prelude::*;

verus! {

/// `rand::rngs::ThreadRng`, which the verifier carries through unopened.
#[verifier::external_type_specification]
#[verifier::external_body]
pub struct ExThreadRng(rand::rngs::ThreadRng);

/// `rand::thread_rng`: a handle to the generator of the current thread.
///
/// Nothing is claimed of the handle.
pub assume_specification[ rand::thread_rng ]() -> (rng: rand::rngs::ThreadRng)
;

/// `Rng::gen_range` over the inclusive range from 0 to 1: one random bit.
///
/// Believed: the value drawn lies in the range, so it is 0 or 1. Which of
/// the two it is differs from call to call.
#[verifier::external_body]
pub(crate) fn coin(rng: &mut rand::rngs::ThreadRng) -> (c: u32)
    ensures
        c <= 1,
{
    rng.gen_range(0..=1)
}

} // verus!
