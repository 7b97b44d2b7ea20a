//! The account of the withdrawal endpoint.
use vstd::prelude::*;

verus! {

/// The balance after a withdrawal of `amount` from `balance`. No check is
/// made that the balance covers the amount: it may become negative.
pub fn balance_after_withdrawal(balance: i32, amount: i32) -> (r: i32)
    requires
        i32::MIN <= balance - amount <= i32::MAX,
    ensures
        r == balance - amount,
{
    balance - amount
}

} // verus!
