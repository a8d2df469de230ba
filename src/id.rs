//! Identifiers of clients and transactions.
use vstd::prelude::*;

verus! {

/// Identifies an account holder.
#[derive(Debug, Clone, Copy, PartialEq, Eq, Hash, Structural)]
pub struct ClientId(pub u16);

/// Identifies a transaction; it is scoped to the client that made it.
#[derive(Debug, Clone, Copy, PartialEq, Eq, Hash, Structural)]
pub struct TransactionId(pub u16);

/// The key under which the history of transactions stores `tx` of `client`.
pub open spec fn spec_history_key(client: ClientId, tx: TransactionId) -> u32 {
    (client.0 as int * 0x1_0000 + tx.0 as int) as u32
}

/// Packs a client and one of its transactions into a single integer key.
///
/// The client goes into the upper sixteen bits and the transaction into the
/// lower sixteen, so distinct pairs get distinct keys.
pub fn history_key(client: ClientId, tx: TransactionId) -> (r: u32)
    ensures
        r == spec_history_key(client, tx),
        r as int == client.0 as int * 0x1_0000 + tx.0 as int,
{
    (client.0 as u32) * 0x1_0000 + (tx.0 as u32)
}

/// Distinct (client, transaction) pairs never share a history key.
pub proof fn lemma_history_key_injective(c1: ClientId, t1: TransactionId, c2: ClientId, t2: TransactionId)
    ensures
        spec_history_key(c1, t1) == spec_history_key(c2, t2) <==> (c1 == c2 && t1 == t2),
{
}

} // verus!
