//! The distance type's elementary values, taken from the numeric traits.

use vstd::prelude::*;

verus! {

/// Calls `num::Zero::zero` for `usize`, which is the number zero.
#[verifier::external_body]
pub(crate) fn zero() -> (z: usize)
    ensures
        z == 0,
{
    <usize as num::Zero>::zero()
}

/// Calls `num_traits::FromPrimitive::from_u32` for `usize`: a `u32` always
/// fits, so the result is `Some` of the same number.
#[verifier::external_body]
pub(crate) fn count_from_u32(n: u32) -> (r: Option<usize>)
    ensures
        r == Some(n as usize),
{
    <usize as num_traits::FromPrimitive>::from_u32(n)
}

} // verus!
