use vstd::prelude::*;
use rand::Rng;
use rand::SeedableRng;

verus! {

/// The seeded generator that a game owns; its state is opaque here.
#[verifier::external_type_specification]
#[verifier::external_body]
pub struct ExStdRng(rand::rngs::StdRng);

/// Relies on `SeedableRng::seed_from_u64` for `StdRng`: a generator whose
/// stream is fixed by the seed.
#[verifier::external_body]
pub(crate) fn seeded_rng(seed: u64) -> (r: rand::rngs::StdRng) {
    rand::rngs::StdRng::seed_from_u64(seed)
}

/// Relies on `Rng::gen_range` over `lo..hi`: a value in that half-open
/// range; it panics on an empty range, which `requires` leaves out.
#[verifier::external_body]
pub(crate) fn draw_in(rng: &mut rand::rngs::StdRng, lo: u16, hi: u16) -> (r: u16)
    requires
        lo < hi,
    ensures
        lo <= r < hi,
{
    rng.gen_range(lo..hi)
}

} // verus!
