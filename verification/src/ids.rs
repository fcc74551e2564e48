//! Registration identifiers: the `uuid` crate's `Uuid`, carried through the
//! logic as an opaque value and compared for equality.

use vstd::prelude::*;

use uuid::Uuid;

verus! {

/// `uuid::Uuid`, declared so it can stand in fields and signatures. Opaque.
#[verifier::external_type_specification]
#[verifier::external_body]
pub struct ExUuid(Uuid);

/// `Uuid`'s `Clone` (derived; `Uuid` is `Copy`): the copy is the same value.
pub assume_specification[ <Uuid as Clone>::clone ](u: &Uuid) -> (r: Uuid)
    ensures
        r == *u,
;

/// `Uuid::new_v4`: a fresh random identifier. Its value rests on chance, so
/// nothing is promised of it.
#[verifier::external_body]
pub(crate) fn new_id() -> Uuid {
    Uuid::new_v4()
}

/// `Uuid::nil`: the all-zero identifier, used for gap slots no player holds.
/// Nothing in this library depends on its value.
#[verifier::external_body]
pub(crate) fn nil_id() -> Uuid {
    Uuid::nil()
}

/// `Uuid`'s `==` (derived over its sixteen bytes): true exactly when the two
/// identifiers are the same value.
#[verifier::external_body]
pub(crate) fn id_eq(a: &Uuid, b: &Uuid) -> (r: bool)
    ensures
        r == (*a == *b),
{
    a == b
}

} // verus!
