use rand::Rng;
use rand_chacha::ChaCha8Rng;
use vstd::prelude::*;

verus! {

/// The seeded generator that spawns draw from.
#[verifier::external_type_specification]
#[verifier::external_body]
pub struct ExChaCha8Rng(ChaCha8Rng);

/// Relies on rand's `Rng::gen_range` over `0..n`: a number below `n` (it
/// panics on an empty range, which `requires` leaves out).
#[verifier::external_body]
pub(crate) fn draw_below(rng: &mut ChaCha8Rng, n: usize) -> (r: usize)
    requires
        n > 0,
    ensures
        r < n,
{
    rng.gen_range(0..n)
}

/// Relies on rand's `Rng::gen_ratio(9, 10)`: `true` with probability nine in
/// ten (the same Bernoulli threshold as `gen_bool(0.9)`).
#[verifier::external_body]
pub(crate) fn draw_nine_in_ten(rng: &mut ChaCha8Rng) -> bool {
    rng.gen_ratio(9, 10)
}

} // verus!
