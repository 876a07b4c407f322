//! Parity tests, as the `num` crate's `Integer` trait provides them.
use vstd::prelude::*;

verus! {

/// Calls `num::Integer::is_odd` on a `u64`: whether `n` is odd.
#[verifier::external_body]
pub(crate) fn is_odd(n: u64) -> (r: bool)
    ensures
        r == (n % 2 == 1),
{
    num::Integer::is_odd(&n)
}

/// Calls `num::Integer::is_even` on a `u64`: whether `n` is even.
#[verifier::external_body]
pub(crate) fn is_even(n: u64) -> (r: bool)
    ensures
        r == (n % 2 == 0),
{
    num::Integer::is_even(&n)
}

} // verus!
