//! The randomness source: rand's standard seeded generator, behind trusted
//! declarations. Nothing is assumed about the values drawn beyond their
//! range.

use vstd::prelude::*;

verus! {

/// Declares rand's `StdRng`, the seedable standard generator, as an opaque
/// value to carry through the search.
#[verifier::external_type_specification]
#[verifier::external_body]
pub struct ExStdRng(rand::rngs::StdRng);

/// Relies on `SeedableRng::seed_from_u64`: builds the standard generator from
/// a word-sized seed. Nothing is claimed of the stream it produces.
#[verifier::external_body]
pub(crate) fn rng_from_seed(seed: u64) -> rand::rngs::StdRng {
    <rand::rngs::StdRng as rand::SeedableRng>::seed_from_u64(seed)
}

/// Relies on `Rng::random_range` over `0..bound`: returns a value below
/// `bound`. It panics only on an empty range, which the `requires` rules out.
#[verifier::external_body]
pub(crate) fn rng_below(rng: &mut rand::rngs::StdRng, bound: u64) -> (r: u64)
    requires
        bound >= 1,
    ensures
        r < bound,
{
    rand::Rng::random_range(rng, 0..bound)
}

} // verus!
