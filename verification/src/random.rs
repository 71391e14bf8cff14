//! The random source. Everything here is trusted: Verus takes the contracts
//! below on faith and never reads the bodies.

use rand::rngs::{OsRng, StdRng};
use rand::{Rng, SeedableRng};
use vstd::prelude::*;

verus! {

/// `rand::rngs::StdRng`, the generator that drives carving and wall heights.
/// Verus sees nothing of its state.
#[verifier::external_type_specification]
#[verifier::external_body]
pub struct ExStdRng(rand::rngs::StdRng);

/// `rand::Error`, what a failing entropy source reports.
#[verifier::external_type_specification]
#[verifier::external_body]
pub struct ExRandError(rand::Error);

/// Calls `SeedableRng::seed_from_u64` of `StdRng`, which expands the seed
/// into a generator state and never fails. Nothing is claimed of the
/// generator that comes back.
#[verifier::external_body]
pub(crate) fn rng_from_seed(seed: u64) -> StdRng {
    StdRng::seed_from_u64(seed)
}

/// Calls `SeedableRng::from_rng` of `StdRng` on `OsRng`, which asks the
/// operating system for a seed and hands its error back when it has none to
/// give. Nothing is claimed of which of the two comes back.
#[verifier::external_body]
pub(crate) fn rng_from_os() -> Result<StdRng, rand::Error> {
    StdRng::from_rng(OsRng)
}

/// Calls `Rng::gen_range` on the half-open range `low..high`. That function
/// panics on an empty range, which `requires` leaves out, and otherwise
/// returns a value of the range; that is all that is claimed of it.
#[verifier::external_body]
pub(crate) fn draw_in(rng: &mut StdRng, low: u64, high: u64) -> (value: u64)
    requires
        low < high,
    ensures
        low <= value < high,
{
    rng.gen_range(low..high)
}

} // verus!
