use vstd::prelude::*;

use crate::types::Error;

verus! {

/// The rules of the group's demonstration token: it is initialized once, and
/// minting adds to a holder's balance.
pub struct StellarSplitToken;

impl StellarSplitToken {
    /// Accepts initialization only of a token not initialized yet.
    pub fn initialize(already_initialized: bool) -> (r: Result<(), Error>)
        ensures
            already_initialized <==> r == Err::<(), Error>(Error::AlreadyInitialized),
            !already_initialized <==> r is Ok,
    {
        if already_initialized {
            Err(Error::AlreadyInitialized)
        } else {
            Ok(())
        }
    }

    /// The balance of a holder of `balance` after `amount` is minted to it.
    pub fn mint(balance: i128, amount: i128) -> (r: Result<i128, Error>)
        ensures
            i128::MIN <= balance + amount <= i128::MAX ==> r == Ok::<i128, Error>(
                (balance + amount) as i128,
            ),
            !(i128::MIN <= balance + amount <= i128::MAX) ==> r == Err::<i128, Error>(
                Error::Overflow,
            ),
    {
        match balance.checked_add(amount) {
            Some(b) => Ok(b),
            None => Err(Error::Overflow),
        }
    }
}

} // verus!
