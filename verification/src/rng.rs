//! The trusted boundary to the rand crate: every random draw the library
//! makes goes through the declarations here, and nothing is assumed of a
//! draw beyond its stated range.

use vstd::prelude::*;

verus! {

/// The seeded pseudo-random generator of the rand crate, used for every
/// draw that maze generation makes. Opaque here: nothing is assumed about
/// the values it produces beyond each wrapper's stated range.
#[verifier::external_type_specification]
#[verifier::external_body]
pub struct ExStdRng(rand::rngs::StdRng);

/// Relies on rand's `SeedableRng::seed_from_u64` for `StdRng`: builds a
/// generator from a seed. Nothing is assumed about the stream it yields.
#[verifier::external_body]
pub fn rng_from_seed(seed: u64) -> rand::rngs::StdRng {
    rand::SeedableRng::seed_from_u64(seed)
}

/// Relies on rand's `Rng::gen_range` over `0..n`: a draw that always lies
/// below `n`. The call panics only on an empty range, which the
/// precondition rules out.
#[verifier::external_body]
pub fn rand_below(rng: &mut rand::rngs::StdRng, n: usize) -> (r: usize)
    requires
        n > 0,
    ensures
        r < n,
{
    rand::Rng::gen_range(rng, 0..n)
}

/// Relies on rand's `thread_rng` and `Rng::gen_range` over `0..n`: a draw
/// from the thread-local generator that always lies below `n`. Panics on
/// an empty range, which the precondition rules out, or if the operating
/// system's entropy source fails when the thread's generator is first set
/// up.
#[verifier::external_body]
pub fn random_below(n: usize) -> (r: usize)
    requires
        n > 0,
    ensures
        r < n,
{
    rand::Rng::gen_range(&mut rand::thread_rng(), 0..n)
}

/// Relies on rand's `random`: one value drawn from the thread-local
/// generator; nothing is assumed about which. Panics only if the
/// operating system's entropy source fails when the thread's generator is
/// first set up.
pub assume_specification<T>[ rand::random::<T> ]() -> (r: T)
    where
        rand::distributions::Standard: rand::distributions::Distribution<T>,
;

} // verus!
