//! Transaction records as the ledger receives them.
use vstd::prelude::*;

use crate::amount::Amount;
use crate::id::{ClientId, TransactionId};

verus! {

/// The five kinds of transaction.
#[derive(Debug, Clone, Copy, PartialEq, Eq, Structural)]
pub enum TransactionType {
    Deposit,
    Withdraw,
    Dispute,
    Resolve,
    Chargeback,
}

/// One record of the log. Deposits and withdrawals carry their amount;
/// disputes, resolves and chargebacks refer to an earlier transaction of the
/// same client by its id and carry none of their own.
#[derive(Debug, Clone, Copy, PartialEq, Eq, Structural)]
pub struct Transaction {
    pub transaction_type: TransactionType,
    pub client: ClientId,
    pub tx: TransactionId,
    pub amount: Option<Amount>,
}

/// Whether a transaction of this kind moves money by itself.
pub open spec fn moves_money(kind: TransactionType) -> bool {
    kind is Deposit || kind is Withdraw
}

/// The amount a transaction carries, counting a missing one as zero.
pub open spec fn amount_value(t: Transaction) -> int {
    match t.amount {
        Some(a) => a.units as int,
        None => 0,
    }
}

impl Transaction {
    /// Deposits and withdrawals carry an amount.
    pub open spec fn spec_is_well_formed(&self) -> bool {
        moves_money(self.transaction_type) ==> self.amount is Some
    }

    /// Tells whether the record is complete: a deposit or a withdrawal
    /// without an amount is malformed.
    #[verifier::when_used_as_spec(spec_is_well_formed)]
    pub fn is_well_formed(&self) -> (r: bool)
        ensures
            r == self.spec_is_well_formed(),
    {
        match self.transaction_type {
            TransactionType::Deposit | TransactionType::Withdraw => self.amount.is_some(),
            _ => true,
        }
    }
}

} // verus!
