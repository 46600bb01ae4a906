//! The two random-integer primitives that generation draws on, and a coin.

use rand::Rng;
use vstd::prelude::*;

verus! {

/// A uniform sample of `[min, max]`.
///
/// Relies on rand's `Rng::gen_range` over an inclusive range on the thread
/// generator: the value lies in the range; it panics on an empty range, which
/// `requires` leaves out.
#[verifier::external_body]
pub fn inclusive_random(min: isize, max: isize) -> (r: isize)
    requires
        min <= max,
    ensures
        min <= r <= max,
{
    rand::thread_rng().gen_range(min..=max)
}

/// A uniform sample of `[0, max)`.
///
/// Relies on rand's `Rng::gen_range` over a half-open range on the thread
/// generator: the value lies in the range; it panics on an empty range, which
/// `requires` leaves out.
#[verifier::external_body]
pub fn exclusive_random(max: isize) -> (r: isize)
    requires
        0 < max,
    ensures
        0 <= r < max,
{
    rand::thread_rng().gen_range(0..max)
}

/// A fair coin.
///
/// Relies on rand's `Rng::gen::<bool>` on the thread generator; nothing is
/// promised of the outcome.
#[verifier::external_body]
pub(crate) fn random_bool() -> (r: bool) {
    rand::thread_rng().gen::<bool>()
}

} // verus!
