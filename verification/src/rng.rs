use vstd::prelude::*;

verus! {

/// Relies on rand::random_range: returns a uniformly random value of the
/// given range. It panics only on an empty range, which the precondition
/// rules out; nothing more than the bound can be promised of the outcome.
#[verifier::external_body]
pub(crate) fn rand_below(n: usize) -> (r: usize)
    requires
        n >= 1,
    ensures
        r < n,
{
    rand::random_range(0..n)
}

/// Relies on rand::random: returns a uniformly random bool. Nothing can
/// be promised of the outcome.
#[verifier::external_body]
pub(crate) fn rand_bool() -> (r: bool) {
    rand::random::<bool>()
}

} // verus!
