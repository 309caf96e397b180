use vstd::prelude::*;

verus! {

/// The small, fast pseudo-random generator of `rand`, carried through as an opaque value.
#[verifier::external_type_specification]
#[verifier::external_body]
pub struct ExSmallRng(rand::rngs::SmallRng);

/// Calls `rand::SeedableRng::seed_from_u64` for `SmallRng`.
/// Nothing is claimed of the generator that comes back: its algorithm is chosen by the
/// platform, and `rand` documents that it may change between versions.
#[verifier::external_body]
pub(crate) fn seeded_rng(seed: u64) -> rand::rngs::SmallRng {
    <rand::rngs::SmallRng as rand::SeedableRng>::seed_from_u64(seed)
}

/// Calls `rand::Rng::random_range` on the range `low..high` of `usize`.
/// Claims only what holds of every draw: the number lies in the range. The call
/// panics on an empty range, which `requires` leaves out.
#[verifier::external_body]
pub(crate) fn random_index(rng: &mut rand::rngs::SmallRng, low: usize, high: usize) -> (r: usize)
    requires
        low < high,
    ensures
        low <= r < high,
{
    rand::Rng::random_range(rng, low..high)
}

} // verus!
