use uuid::Uuid;
use vstd::prelude::*;

verus! {

/// `uuid::Uuid`, carried through as an opaque value.
#[verifier::external_type_specification]
#[verifier::external_body]
pub struct ExUuid(uuid::Uuid);

/// The 128 bits of a UUID as one number, the first byte the most
/// significant: what `Uuid::as_u128` returns.
pub uninterp spec fn uuid_bits(id: Uuid) -> u128;

/// Calls `Uuid::new_v4`, which draws a random UUID; nothing is claimed of
/// its value.
#[verifier::external_body]
pub(crate) fn random_uuid() -> (id: Uuid) {
    Uuid::new_v4()
}

/// Calls `Uuid::nil`, which returns the UUID whose 128 bits are all zero.
#[verifier::external_body]
pub(crate) fn nil_uuid() -> (id: Uuid)
    ensures
        uuid_bits(id) == 0,
{
    Uuid::nil()
}

} // verus!
