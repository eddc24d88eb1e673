//! The random source that picks which edge a board tries next.
use rand::rngs::ThreadRng;
use rand::Rng;
use vstd::prelude::*;

verus! {

#[verifier::external_type_specification]
#[verifier::external_body]
pub struct ExThreadRng(ThreadRng);

/// Relies on `rand::thread_rng`, which hands out a handle to the thread's
/// generator; nothing is known of the numbers it will give.
pub assume_specification[ rand::thread_rng ]() -> ThreadRng;

/// Relies on `Rng::gen_range` over the half-open range `0..n`, which yields
/// a value in that range and panics only when the range is empty.
#[verifier::external_body]
pub(crate) fn random_index(rng: &mut ThreadRng, n: usize) -> (r: usize)
    requires
        n > 0,
    ensures
        r < n,
{
    rng.gen_range(0..n)
}

} // verus!
