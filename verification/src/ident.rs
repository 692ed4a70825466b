//! Order identifiers.
//!
//! An order id is the 128-bit value of a version 4 UUID.

use vstd::prelude::*;

verus! {

/// Draws a fresh random order id.
///
/// Trusted: calls `uuid::Uuid::new_v4` and takes the UUID as a `u128` with
/// `Uuid::as_u128`. The id is random, so nothing is claimed of it.
#[verifier::external_body]
pub(crate) fn random_id() -> (r: u128) {
    uuid::Uuid::new_v4().as_u128()
}

} // verus!
