use vstd::prelude::*;
use rand::Rng;

verus! {

/// Relies on rand::Rng::gen_range over `min..max`: it returns a value of the
/// half-open range, drawn from the thread-local generator, and panics only
/// when the range is empty, which the precondition rules out. Nothing more is
/// claimed: the result depends on entropy, so the contract holds of every outcome.
#[verifier::external_body]
pub fn random_range(min: usize, max: usize) -> (r: usize)
    requires
        min < max,
    ensures
        min <= r < max,
{
    rand::thread_rng().gen_range(min..max)
}

} // verus!
