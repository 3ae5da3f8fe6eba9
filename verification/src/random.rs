//! The source of randomness of the solvers.

use rand::rngs::ThreadRng;
use rand::Rng;
use vstd::prelude::*;

verus! {

/// `rand::rngs::ThreadRng`, the random number generator of a thread.
#[verifier::external_type_specification]
#[verifier::external_body]
pub struct ExThreadRng(ThreadRng);

/// `rand::thread_rng`: the generator of the current thread, which the
/// operating system seeds. Nothing is claimed of it.
#[verifier::external_body]
pub(crate) fn thread_rng() -> (rng: ThreadRng) {
    rand::thread_rng()
}

/// `Rng::gen_range` with a lower bound of zero: some index below `high`.
/// Which one is left open, and the generator moves on. The call panics on an
/// empty range, so `high` is positive.
#[verifier::external_body]
pub(crate) fn gen_index(rng: &mut ThreadRng, high: usize) -> (index: usize)
    requires
        high > 0,
    ensures
        index < high,
{
    rng.gen_range(0, high)
}

} // verus!
