//! The failures of a change to a user's balance.

use vstd::prelude::*;

verus! {

/// Error while trying to change a user's balance.
#[derive(Debug, PartialEq)]
pub enum BalanceError {
    /// The balance is less than the amount that was to be taken from it.
    InsufficientFunds,
    /// The balance store failed in a way that it cannot recover from; the
    /// field says how.
    Fatal(String),
}

impl BalanceError {
    /// A sentence that says what went wrong.
    pub fn message(&self) -> (text: &'static str)
        ensures
            self is InsufficientFunds ==> text@
                == "user balance is less then the requested debit amount"@,
            self is Fatal ==> text@ == "unrecoverable error"@,
    {
        match self {
            BalanceError::InsufficientFunds => {
                "user balance is less then the requested debit amount"
            },
            BalanceError::Fatal(_) => "unrecoverable error",
        }
    }
}

} // verus!
