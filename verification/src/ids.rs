//! Block identity: globally unique 128-bit identifiers, drawn from
//! random version-4 UUIDs.

use vstd::prelude::*;

verus! {

/// Relies on uuid::Uuid::new_v4 (and Uuid::as_u128): a random
/// version-4 UUID as its 128-bit value. The version and variant bits of
/// a version-4 UUID are always set, so the value is never zero; nothing
/// more is promised of a random draw.
#[verifier::external_body]
pub(crate) fn fresh_id() -> (r: u128)
    ensures
        r != 0,
{
    uuid::Uuid::new_v4().as_u128()
}

} // verus!
