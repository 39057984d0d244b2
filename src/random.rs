use vstd::prelude::*;
use rand::Rng;

verus! {

/// Relies on `rand::Rng::gen_range` over an inclusive integer range, drawn from
/// `rand::thread_rng()`: the sample lies in `min..=max` (the call panics only on
/// an empty range, which `requires` leaves out).
#[verifier::external_body]
pub(crate) fn random_int(min: i32, max: i32) -> (r: i32)
    requires
        min <= max,
    ensures
        min <= r <= max,
{
    rand::thread_rng().gen_range(min..=max)
}

} // verus!
