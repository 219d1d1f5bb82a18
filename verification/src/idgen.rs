//! Fresh note identifiers.

use vstd::prelude::*;

verus! {

/// Relies on `uuid::Uuid::new_v4` and its hyphenated `Display` form: a
/// random version-4 UUID rendered as 36 ASCII characters. The identifier is
/// random, so nothing is assumed beyond the rendered length; callers check
/// for collisions themselves.
#[verifier::external_body]
pub fn fresh_id() -> (r: String)
    ensures
        r@.len() == 36,
{
    uuid::Uuid::new_v4().to_string()
}

} // verus!
