use rand::rngs::StdRng;
use rand::Rng;
use vstd::prelude::*;

verus! {

/// The seedable generator of `rand` that every random draw goes through.
#[verifier::external_type_specification]
#[verifier::external_body]
pub struct ExStdRng(StdRng);

/// Relies on `rand::Rng::gen_range` over the half-open range `0..bound`:
/// the value drawn lies in that range (the call panics only on an empty
/// range, which `requires` leaves out).
#[verifier::external_body]
pub(crate) fn draw_below(rng: &mut StdRng, bound: usize) -> (r: usize)
    requires
        bound > 0,
    ensures
        r < bound,
{
    rng.gen_range(0..bound)
}

/// Relies on `rand::Rng::gen::<u32>`: a uniformly drawn 32-bit value, which
/// as a gene stands for a weight drawn uniformly from `[0, 1)`.
#[verifier::external_body]
pub(crate) fn draw_gene(rng: &mut StdRng) -> (r: u32) {
    rng.gen::<u32>()
}

} // verus!
