//! The extreme values of the key type in which numbers are compared.

use vstd::prelude::*;

verus! {

/// The largest comparison key. Calls `num_traits::bounds::Bounded::max_value`
/// for `i128`, which that crate defines as `i128::MAX`; the contract says so
/// and Verus takes it on trust.
#[verifier::external_body]
pub(crate) fn key_max_value() -> (k: i128)
    ensures
        k == i128::MAX,
{
    <i128 as num_traits::bounds::Bounded>::max_value()
}

/// The smallest comparison key. Calls `num_traits::bounds::Bounded::min_value`
/// for `i128`, which that crate defines as `i128::MIN`; the contract says so
/// and Verus takes it on trust.
#[verifier::external_body]
pub(crate) fn key_min_value() -> (k: i128)
    ensures
        k == i128::MIN,
{
    <i128 as num_traits::bounds::Bounded>::min_value()
}

} // verus!
