use vstd::prelude::*;
use scrypto::prelude::ResourceAddress;
use scrypto::prelude::ComponentAddress;

verus! {

/// The address of a resource on the ledger.
#[verifier::external_type_specification]
#[verifier::external_body]
pub struct ExResourceAddress(ResourceAddress);

/// The address of a component on the ledger.
#[verifier::external_type_specification]
#[verifier::external_body]
pub struct ExComponentAddress(ComponentAddress);

/// Whether two resource addresses are the same, with scrypto's `==` on `ResourceAddress`,
/// which compares the addresses' bytes.
#[verifier::external_body]
pub(crate) fn resource_eq(a: &ResourceAddress, b: &ResourceAddress) -> (r: bool)
    ensures
        r == (*a == *b),
{
    *a == *b
}

/// Whether two component addresses are the same, with scrypto's `==` on `ComponentAddress`,
/// which compares the addresses' bytes.
#[verifier::external_body]
pub(crate) fn component_eq(a: &ComponentAddress, b: &ComponentAddress) -> (r: bool)
    ensures
        r == (*a == *b),
{
    *a == *b
}

} // verus!
