use rand::Rng;
use vstd::prelude::*;

verus! {

/// The random number generator that each thread keeps, seeded by the system.
#[verifier::external_type_specification]
#[verifier::external_body]
pub struct ExThreadRng(rand::rngs::ThreadRng);

/// Calls `rand::thread_rng`, which hands out a handle to the calling
/// thread's generator. Nothing is claimed of its state.
#[verifier::external_body]
pub(crate) fn thread_rng() -> rand::rngs::ThreadRng {
    rand::thread_rng()
}

/// Calls `Rng::gen_range` on the half-open range `0..bound`, which panics on
/// an empty range (hence `bound > 0`) and otherwise returns a value of the
/// range: claimed is only that the result is below `bound`, since which value
/// comes out is chance.
#[verifier::external_body]
pub(crate) fn gen_below(rng: &mut rand::rngs::ThreadRng, bound: u64) -> (r: u64)
    requires
        bound > 0,
    ensures
        r < bound,
{
    rng.gen_range(0..bound)
}

} // verus!
