//! A ledger-replay engine: applies an ordered log of deposits, withdrawals and
//! dispute records to per-client accounts and reports the resulting balances.
//!
//! Every account is a small state machine whose behaviour is the spec function
//! `account::apply_spec`; the ledger routes each transaction to its client's
//! account by `store::LedgerView::step`. The executable code is proved to
//! follow both, and the properties of the ledger are proved of them.
pub mod account;
pub mod amount;
pub mod error;
pub mod id;
pub mod store;
pub mod transaction;

pub use account::Account;
pub use amount::{Amount, Balance};
pub use error::TransactionError;
pub use id::{history_key, ClientId, TransactionId};
pub use store::Store;
pub use transaction::{Transaction, TransactionType};
