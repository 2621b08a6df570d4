//! Identifiers for newly added tasks: random (version 4) UUIDs.
use vstd::prelude::*;

verus! {

/// The UUID, read as a big-endian 128-bit number, has version 4 and the
/// RFC 4122 variant.
pub open spec fn is_random_uuid(id: u128) -> bool {
    (id >> 76u128) & 0xFu128 == 4 && (id >> 62u128) & 0x3u128 == 2
}

/// Relies on uuid's `Uuid::new_v4` and `Uuid::as_u128`: random bits with the
/// version nibble set to 4 and the two variant bits set to `10`.
#[verifier::external_body]
fn random_uuid() -> (r: u128)
    ensures
        is_random_uuid(r),
{
    uuid::Uuid::new_v4().as_u128()
}

/// The id under which a task with this text is stored: a fresh random UUID,
/// whatever the text.
pub fn add_todo(text: &str) -> (r: u128)
    ensures
        is_random_uuid(r),
{
    random_uuid()
}

} // verus!
