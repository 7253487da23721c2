use vstd::prelude::*;

verus! {

/// Relies on `rand::random_range` over an inclusive range of `u64`: the
/// thread-local generator returns a value within the bounds. It panics on an
/// empty range, which `requires` rules out, and otherwise only if the
/// operating system's entropy source fails when the generator is seeded.
#[verifier::external_body]
pub(crate) fn random_in(low: u64, high: u64) -> (r: u64)
    requires
        low <= high,
    ensures
        low <= r <= high,
{
    rand::random_range(low..=high)
}

} // verus!
