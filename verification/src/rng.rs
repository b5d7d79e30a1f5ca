//! The randomness source of the pipeline. Every component that needs entropy
//! takes an explicit `StdRng`, so that a run under a fixed seed is
//! reproducible; nothing draws from process-global state.

use vstd::prelude::*;

verus! {

#[verifier::external_type_specification]
#[verifier::external_body]
pub struct ExStdRng(rand::rngs::StdRng);

/// Relies on `rand::SeedableRng::seed_from_u64`: builds a generator from a
/// word-sized seed. Nothing is assumed of the stream it produces.
#[verifier::external_body]
pub fn seed_rng(seed: u64) -> (r: rand::rngs::StdRng) {
    rand::SeedableRng::seed_from_u64(seed)
}

/// Relies on `rand::Rng::gen_range` over `0..n`: it panics on an empty
/// range, and otherwise returns a value of the range, so below `n`.
/// Two calls on one state may return different values.
#[verifier::external_body]
pub(crate) fn gen_index(rng: &mut rand::rngs::StdRng, n: usize) -> (r: usize)
    requires
        n >= 1,
    ensures
        r < n,
{
    rand::Rng::gen_range(rng, 0..n)
}

} // verus!
