//! Source of random bits for level generation.

use vstd::prelude::*;

verus! {

/// Relies on `rand::random::<bool>`: draws one fair random boolean from the
/// process-wide generator. Nothing is promised of the value drawn.
#[verifier::external_body]
pub(crate) fn random_bool() -> bool {
    rand::random::<bool>()
}

} // verus!
