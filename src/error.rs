//! Why a transaction was rejected.
use vstd::prelude::*;

use crate::amount::{Amount, Balance};

verus! {

/// The reasons for which an account refuses a transaction. A refused
/// transaction leaves the account as it was.
#[derive(Debug, Clone, Copy, PartialEq, Eq, Structural)]
pub enum TransactionError {
    /// A withdrawal asked for more than the available balance.
    Overdraft { available: Balance, transaction_amount: Amount },
    /// The referenced transaction is unknown.
    TransactionDoesNotExist,
    /// A chargeback referred to a transaction that is not under dispute.
    TransactionNotDisputed,
    /// The account was frozen by an earlier chargeback.
    AccountLocked,
}

} // verus!
