//! Source of fresh random values, behind a trusted boundary.

use vstd::prelude::*;

verus! {

/// Relies on rand::random: draws a pseudo-random 64-bit value. Nothing is
/// promised of the result; callers check what they need of it themselves.
#[verifier::external_body]
pub fn random_u64() -> u64 {
    rand::random()
}

} // verus!
