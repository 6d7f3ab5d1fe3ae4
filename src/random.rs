use vstd::prelude::*;

verus! {

/// The generator of fastrand, carried through the carving code as an opaque value.
#[verifier::external_type_specification]
#[verifier::external_body]
pub struct ExRng(fastrand::Rng);

/// Relies on fastrand::Rng::with_seed: a generator whose stream is fixed by `seed`.
#[verifier::external_body]
pub(crate) fn seeded(seed: u64) -> (r: fastrand::Rng) {
    fastrand::Rng::with_seed(seed)
}

/// Relies on fastrand::Rng::bool: a coin flip, advancing the generator.
#[verifier::external_body]
pub(crate) fn coin_flip(rng: &mut fastrand::Rng) -> (r: bool) {
    rng.bool()
}

/// Relies on fastrand::Rng::usize: on a non-empty range it returns a value
/// inside the range (it panics on an empty one).
#[verifier::external_body]
pub(crate) fn below(rng: &mut fastrand::Rng, n: usize) -> (r: usize)
    requires
        n > 0,
    ensures
        r < n,
{
    rng.usize(0..n)
}

} // verus!
