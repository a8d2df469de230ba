//! One client's account: its balance, its open disputes and its lock.
use std::collections::HashMap;
use vstd::prelude::*;
use vstd::set_lib::{lemma_int_range, lemma_len_subset, set_int_range};

use crate::amount::{Amount, Balance};
use crate::error::TransactionError;
use crate::id::{history_key, spec_history_key, ClientId, TransactionId};
use crate::transaction::{amount_value, Transaction, TransactionType};

verus! {

broadcast use vstd::std_specs::hash::group_hash_axioms;

/// The sum of the amounts of `s`.
pub open spec fn sum_amounts(s: Seq<Transaction>) -> int
    decreases s.len(),
{
    if s.len() == 0 {
        0
    } else {
        sum_amounts(s.drop_last()) + amount_value(s.last())
    }
}

/// The sum of the amounts of the transactions of `s` whose id is `tx`.
pub open spec fn amount_of_tx(s: Seq<Transaction>, tx: TransactionId) -> int
    decreases s.len(),
{
    if s.len() == 0 {
        0
    } else {
        amount_of_tx(s.drop_last(), tx) + if s.last().tx == tx {
            amount_value(s.last())
        } else {
            0
        }
    }
}

/// `s` without the transactions whose id is `tx`, in the same order.
pub open spec fn remove_tx(s: Seq<Transaction>, tx: TransactionId) -> Seq<Transaction>
    decreases s.len(),
{
    if s.len() == 0 {
        s
    } else if s.last().tx == tx {
        remove_tx(s.drop_last(), tx)
    } else {
        remove_tx(s.drop_last(), tx).push(s.last())
    }
}

/// Whether some transaction of `s` has the id `tx`.
pub open spec fn has_tx(s: Seq<Transaction>, tx: TransactionId) -> bool {
    exists|i: int| 0 <= i < s.len() && #[trigger] s[i].tx == tx
}

/// No two transactions of `s` share an id.
pub open spec fn ids_distinct(s: Seq<Transaction>) -> bool {
    forall|i: int, j: int| 0 <= i < j < s.len() ==> #[trigger] s[i].tx != #[trigger] s[j].tx
}

/// Every entry of a history is stored under the key of its own client and id.
pub open spec fn history_wf(history: Map<u32, Transaction>) -> bool {
    forall|k: u32| #[trigger] history.contains_key(k) ==> spec_history_key(history[k].client, history[k].tx) == k
}

/// The mathematical state of an account.
pub struct AccountView {
    pub id: ClientId,
    /// The ledger balance, funds under dispute included, in ten-thousandths.
    pub total: int,
    pub locked: bool,
    /// The transactions under dispute, in the order in which they were disputed.
    pub disputes: Seq<Transaction>,
}

impl AccountView {
    /// The state of an account that has seen no transaction.
    pub open spec fn fresh(id: ClientId) -> AccountView {
        AccountView { id, total: 0, locked: false, disputes: Seq::empty() }
    }

    /// Funds under dispute.
    pub open spec fn held(self) -> int {
        sum_amounts(self.disputes)
    }

    /// Funds that may be withdrawn.
    pub open spec fn available(self) -> int {
        self.total - self.held()
    }

    pub open spec fn is_disputed(self, tx: TransactionId) -> bool {
        has_tx(self.disputes, tx)
    }

    /// What the account keeps true between transactions.
    pub open spec fn wf(self) -> bool {
        &&& ids_distinct(self.disputes)
        &&& -(u64::MAX as int) <= self.total <= i128::MAX as int
        &&& !self.locked ==> self.total >= 0
    }

    /// The transactions that the account can take without leaving the range
    /// of its balance: well-formed ones, and no deposit that would carry the
    /// total past `i128::MAX` ten-thousandths.
    pub open spec fn admits(self, t: Transaction) -> bool {
        &&& t.spec_is_well_formed()
        &&& (!self.locked && t.transaction_type is Deposit) ==> self.total + amount_value(t)
            <= i128::MAX as int
    }
}

/// A deposit of `amount`.
pub open spec fn deposit_spec(a: AccountView, amount: Amount) -> (AccountView, Result<(), TransactionError>) {
    if a.locked {
        (a, Err(TransactionError::AccountLocked))
    } else {
        (AccountView { total: a.total + amount.units, ..a }, Ok(()))
    }
}

/// A withdrawal of `amount`: it is refused when it exceeds the available funds.
pub open spec fn withdraw_spec(a: AccountView, amount: Amount) -> (AccountView, Result<(), TransactionError>) {
    if a.locked {
        (a, Err(TransactionError::AccountLocked))
    } else if a.available() - amount.units >= 0 {
        (AccountView { total: a.total - amount.units, ..a }, Ok(()))
    } else {
        (
            a,
            Err(
                TransactionError::Overdraft {
                    available: Balance { units: a.available() as i128 },
                    transaction_amount: amount,
                },
            ),
        )
    }
}

/// The account after `t`, and whether `t` goes into the history, or why it
/// was refused. `history` holds the deposits and withdrawals that were
/// applied earlier, under `spec_history_key`.
pub open spec fn apply_spec(a: AccountView, history: Map<u32, Transaction>, t: Transaction) -> (
    AccountView,
    Result<bool, TransactionError>,
) {
    if a.locked {
        (a, Err(TransactionError::AccountLocked))
    } else {
        match t.transaction_type {
            TransactionType::Deposit => {
                let (n, r) = deposit_spec(a, t.amount.unwrap());
                (n, if r is Ok { Ok(true) } else { Err(r->Err_0) })
            },
            TransactionType::Withdraw => {
                let (n, r) = withdraw_spec(a, t.amount.unwrap());
                (n, if r is Ok { Ok(true) } else { Err(r->Err_0) })
            },
            TransactionType::Dispute => {
                let k = spec_history_key(a.id, t.tx);
                if history.contains_key(k) && !a.is_disputed(t.tx) {
                    (AccountView { disputes: a.disputes.push(history[k]), ..a }, Ok(false))
                } else {
                    (a, Ok(false))
                }
            },
            TransactionType::Resolve => {
                (AccountView { disputes: remove_tx(a.disputes, t.tx), ..a }, Ok(false))
            },
            TransactionType::Chargeback => {
                if a.is_disputed(t.tx) {
                    (
                        AccountView {
                            id: a.id,
                            total: a.total - amount_of_tx(a.disputes, t.tx),
                            locked: true,
                            disputes: remove_tx(a.disputes, t.tx),
                        },
                        Ok(false),
                    )
                } else {
                    (a, Err(TransactionError::TransactionNotDisputed))
                }
            },
        }
    }
}

/// Amounts are never negative, so neither is their sum.
pub proof fn lemma_sum_nonneg(s: Seq<Transaction>)
    ensures
        0 <= sum_amounts(s) <= s.len() * (u64::MAX as int),
    decreases s.len(),
{
    if s.len() > 0 {
        lemma_sum_nonneg(s.drop_last());
    }
}

/// Splitting off the transactions with id `tx` splits the sum.
pub proof fn lemma_sum_remove(s: Seq<Transaction>, tx: TransactionId)
    ensures
        sum_amounts(s) == sum_amounts(remove_tx(s, tx)) + amount_of_tx(s, tx),
    decreases s.len(),
{
    if s.len() > 0 {
        lemma_sum_remove(s.drop_last(), tx);
        if s.last().tx != tx {
            assert(remove_tx(s, tx).drop_last() == remove_tx(s.drop_last(), tx));
        }
    }
}

/// Where no transaction has id `tx`, removing it changes nothing.
pub proof fn lemma_remove_absent(s: Seq<Transaction>, tx: TransactionId)
    requires
        !has_tx(s, tx),
    ensures
        remove_tx(s, tx) == s,
        amount_of_tx(s, tx) == 0,
    decreases s.len(),
{
    if s.len() > 0 {
        let p = s.drop_last();
        assert(!has_tx(p, tx)) by {
            if has_tx(p, tx) {
                let i = choose|i: int| 0 <= i < p.len() && #[trigger] p[i].tx == tx;
                assert(s[i].tx == tx);
            }
        }
        assert(s.last().tx != tx) by {
            assert(s[s.len() - 1].tx == s.last().tx);
        }
        lemma_remove_absent(p, tx);
        assert(p.push(s.last()) == s);
    }
}

/// With distinct ids, the transactions with id `tx` amount to that of the
/// one at `i`.
pub proof fn lemma_amount_of_single(s: Seq<Transaction>, tx: TransactionId, i: int)
    requires
        ids_distinct(s),
        0 <= i < s.len(),
        s[i].tx == tx,
    ensures
        amount_of_tx(s, tx) == amount_value(s[i]),
        0 <= amount_of_tx(s, tx) <= u64::MAX,
    decreases s.len(),
{
    let p = s.drop_last();
    if i == s.len() - 1 {
        assert(!has_tx(p, tx)) by {
            if has_tx(p, tx) {
                let j = choose|j: int| 0 <= j < p.len() && #[trigger] p[j].tx == tx;
                assert(s[j].tx == s[i].tx);
            }
        }
        lemma_remove_absent(p, tx);
    } else {
        assert(s.last().tx != tx) by {
            assert(s[s.len() - 1].tx != s[i].tx);
        }
        lemma_amount_of_single(p, tx, i);
    }
}

/// Transaction ids are sixteen-bit numbers, so distinct ones number at most
/// 65 536.
pub proof fn lemma_distinct_ids_bounded(s: Seq<Transaction>)
    requires
        ids_distinct(s),
    ensures
        s.len() <= 0x1_0000,
{
    let ids = s.map_values(|t: Transaction| t.tx.0 as int);
    assert(ids.no_duplicates()) by {
        assert forall|i: int, j: int| 0 <= i < ids.len() && 0 <= j < ids.len() && i != j implies ids[i]
            != ids[j] by {
            if i < j {
                assert(s[i].tx != s[j].tx);
            } else {
                assert(s[j].tx != s[i].tx);
            }
        }
    }
    ids.unique_seq_to_set();
    lemma_int_range(0, 0x1_0000);
    assert(ids.to_set().subset_of(set_int_range(0, 0x1_0000))) by {
        assert forall|x: int| ids.to_set().contains(x) implies set_int_range(0, 0x1_0000).contains(x) by {
            let i = choose|i: int| 0 <= i < ids.len() && ids[i] == x;
        }
    }
    lemma_len_subset(ids.to_set(), set_int_range(0, 0x1_0000));
}

/// Removing the transactions with one id keeps the others, and their ids
/// stay distinct.
pub proof fn lemma_remove_keeps_distinct(s: Seq<Transaction>, tx: TransactionId)
    requires
        ids_distinct(s),
    ensures
        ids_distinct(remove_tx(s, tx)),
        !has_tx(remove_tx(s, tx), tx),
        forall|x: TransactionId| #[trigger] has_tx(remove_tx(s, tx), x) ==> has_tx(s, x),
    decreases s.len(),
{
    if s.len() > 0 {
        let p = s.drop_last();
        assert(ids_distinct(p));
        lemma_remove_keeps_distinct(p, tx);
        let rp = remove_tx(p, tx);
        assert forall|x: TransactionId| has_tx(rp, x) implies has_tx(s, x) by {
            let i = choose|i: int| 0 <= i < rp.len() && #[trigger] rp[i].tx == x;
            let j = choose|j: int| 0 <= j < p.len() && #[trigger] p[j].tx == x;
            assert(s[j].tx == x);
        }
        if s.last().tx != tx {
            let r = rp.push(s.last());
            assert(!has_tx(rp, s.last().tx)) by {
                if has_tx(rp, s.last().tx) {
                    let j = choose|j: int| 0 <= j < p.len() && #[trigger] p[j].tx == s.last().tx;
                    assert(s[j].tx == s[s.len() - 1].tx);
                }
            }
            assert forall|i: int, j: int| 0 <= i < j < r.len() implies #[trigger] r[i].tx
                != #[trigger] r[j].tx by {
                if j == r.len() - 1 {
                    assert(rp[i].tx == r[i].tx);
                } else {
                    assert(rp[i].tx == r[i].tx && rp[j].tx == r[j].tx);
                }
            }
            assert(!has_tx(r, tx)) by {
                if has_tx(r, tx) {
                    let i = choose|i: int| 0 <= i < r.len() && #[trigger] r[i].tx == tx;
                    if i < rp.len() {
                        assert(rp[i].tx == tx);
                    }
                }
            }
            assert forall|x: TransactionId| has_tx(r, x) implies has_tx(s, x) by {
                let i = choose|i: int| 0 <= i < r.len() && #[trigger] r[i].tx == x;
                if i < rp.len() {
                    assert(rp[i].tx == x);
                } else {
                    assert(s[s.len() - 1].tx == x);
                }
            }
        }
    }
}

/// Every step keeps an account well-formed and keeps its id.
pub proof fn lemma_apply_preserves_wf(a: AccountView, history: Map<u32, Transaction>, t: Transaction)
    requires
        a.wf(),
        history_wf(history),
        a.admits(t),
    ensures
        apply_spec(a, history, t).0.wf(),
        apply_spec(a, history, t).0.id == a.id,
{
    lemma_sum_nonneg(a.disputes);
    if !a.locked {
        match t.transaction_type {
            TransactionType::Dispute => {
                let k = spec_history_key(a.id, t.tx);
                if history.contains_key(k) && !a.is_disputed(t.tx) {
                    let d = history[k];
                    crate::id::lemma_history_key_injective(d.client, d.tx, a.id, t.tx);
                    let n = a.disputes.push(d);
                    assert forall|i: int, j: int| 0 <= i < j < n.len() implies #[trigger] n[i].tx
                        != #[trigger] n[j].tx by {
                        if j == n.len() - 1 {
                            assert(a.disputes[i].tx == n[i].tx);
                        } else {
                            assert(a.disputes[i].tx == n[i].tx && a.disputes[j].tx == n[j].tx);
                        }
                    }
                }
            },
            TransactionType::Resolve => {
                lemma_remove_keeps_distinct(a.disputes, t.tx);
            },
            TransactionType::Chargeback => {
                if a.is_disputed(t.tx) {
                    let i = choose|i: int| 0 <= i < a.disputes.len() && #[trigger] a.disputes[i].tx == t.tx;
                    lemma_amount_of_single(a.disputes, t.tx, i);
                    lemma_remove_keeps_distinct(a.disputes, t.tx);
                }
            },
            _ => {},
        }
    }
}

/// In a well-formed account the available and held funds add up to the
/// total, and the held funds are never negative.
pub proof fn balances_consistent(a: AccountView)
    requires
        a.wf(),
    ensures
        a.available() + a.held() == a.total,
        a.held() >= 0,
{
    lemma_sum_nonneg(a.disputes);
}

/// Applying the same dispute twice in a row has the effect of applying it
/// once: the second application changes nothing and answers the same.
pub proof fn dispute_is_idempotent(a: AccountView, history: Map<u32, Transaction>, t: Transaction)
    requires
        history_wf(history),
        t.transaction_type is Dispute,
    ensures
        apply_spec(apply_spec(a, history, t).0, history, t) == apply_spec(a, history, t),
{
    let k = spec_history_key(a.id, t.tx);
    if !a.locked && history.contains_key(k) && !a.is_disputed(t.tx) {
        let d = history[k];
        crate::id::lemma_history_key_injective(d.client, d.tx, a.id, t.tx);
        let n = a.disputes.push(d);
        assert(n[n.len() - 1].tx == t.tx);
    }
}

/// Resolving a transaction that is not under dispute changes nothing, and
/// an unlocked account reports no error for it.
pub proof fn resolve_undisputed_is_noop(a: AccountView, history: Map<u32, Transaction>, t: Transaction)
    requires
        t.transaction_type is Resolve,
        !a.is_disputed(t.tx),
    ensures
        apply_spec(a, history, t).0 == a,
        !a.locked ==> apply_spec(a, history, t).1 == Ok::<bool, TransactionError>(false),
{
    lemma_remove_absent(a.disputes, t.tx);
}

/// A locked account is left exactly as it is by any transaction.
pub proof fn locked_account_is_frozen(a: AccountView, history: Map<u32, Transaction>, t: Transaction)
    requires
        a.locked,
    ensures
        apply_spec(a, history, t).0 == a,
        apply_spec(a, history, t).1 == Err::<bool, TransactionError>(TransactionError::AccountLocked),
{
}

/// A dispute followed at once by a resolve of the same transaction brings
/// the account back to where it was, available and held funds included,
/// provided that the transaction was not under dispute before.
pub proof fn dispute_then_resolve_restores(
    a: AccountView,
    history: Map<u32, Transaction>,
    dispute: Transaction,
    resolve: Transaction,
)
    requires
        history_wf(history),
        dispute.transaction_type is Dispute,
        resolve.transaction_type is Resolve,
        dispute.tx == resolve.tx,
        !a.is_disputed(dispute.tx),
    ensures
        apply_spec(apply_spec(a, history, dispute).0, history, resolve).0 == a,
        apply_spec(apply_spec(a, history, dispute).0, history, resolve).0.held() == a.held(),
        apply_spec(apply_spec(a, history, dispute).0, history, resolve).0.available() == a.available(),
{
    let tx = dispute.tx;
    lemma_remove_absent(a.disputes, tx);
    let k = spec_history_key(a.id, tx);
    if !a.locked && history.contains_key(k) {
        let d = history[k];
        crate::id::lemma_history_key_injective(d.client, d.tx, a.id, tx);
        let n = a.disputes.push(d);
        assert(n.drop_last() == a.disputes);
        assert(remove_tx(n, tx) == remove_tx(a.disputes, tx));
    }
}

/// A dispute that takes effect moves the disputed amount from the available
/// funds to the held funds; the total does not change.
pub proof fn dispute_moves_funds_to_held(a: AccountView, history: Map<u32, Transaction>, t: Transaction)
    requires
        t.transaction_type is Dispute,
        !a.locked,
        history.contains_key(spec_history_key(a.id, t.tx)),
        !a.is_disputed(t.tx),
    ensures
        ({
            let n = apply_spec(a, history, t).0;
            let amount = amount_value(history[spec_history_key(a.id, t.tx)]);
            &&& n.total == a.total
            &&& n.held() == a.held() + amount
            &&& n.available() == a.available() - amount
        }),
{
    let n = apply_spec(a, history, t).0;
    assert(n.disputes.drop_last() == a.disputes);
}

/// A chargeback that takes effect removes the disputed amount from the held
/// funds and from the total, leaves the available funds as they were, and
/// locks the account.
pub proof fn chargeback_removes_held_funds(a: AccountView, history: Map<u32, Transaction>, t: Transaction)
    requires
        t.transaction_type is Chargeback,
        !a.locked,
        a.is_disputed(t.tx),
    ensures
        ({
            let n = apply_spec(a, history, t).0;
            &&& n.total == a.total - amount_of_tx(a.disputes, t.tx)
            &&& n.held() == a.held() - amount_of_tx(a.disputes, t.tx)
            &&& n.available() == a.available()
            &&& n.locked
        }),
{
    lemma_sum_remove(a.disputes, t.tx);
}

/// The position of the transaction with id `tx` in `v`, if there is one.
fn position_of(v: &Vec<Transaction>, tx: TransactionId) -> (r: Option<usize>)
    ensures
        match r {
            Some(i) => i < v@.len() && v@[i as int].tx == tx,
            None => !has_tx(v@, tx),
        },
{
    let mut i: usize = 0;
    while i < v.len()
        invariant
            i <= v@.len(),
            forall|j: int| 0 <= j < i ==> #[trigger] v@[j].tx != tx,
        decreases v@.len() - i,
    {
        if v[i].tx == tx {
            return Some(i);
        }
        i += 1;
    }
    None
}

/// A copy of `v` without the transactions whose id is `tx`.
fn without_tx(v: &Vec<Transaction>, tx: TransactionId) -> (r: Vec<Transaction>)
    ensures
        r@ == remove_tx(v@, tx),
{
    let mut r: Vec<Transaction> = Vec::new();
    let mut i: usize = 0;
    while i < v.len()
        invariant
            i <= v@.len(),
            r@ == remove_tx(v@.subrange(0, i as int), tx),
        decreases v@.len() - i,
    {
        let t = v[i];
        proof {
            let next = v@.subrange(0, i + 1);
            assert(next.drop_last() == v@.subrange(0, i as int));
            assert(next.last() == t);
        }
        if t.tx != tx {
            r.push(t);
        }
        i += 1;
    }
    assert(v@.subrange(0, v@.len() as int) == v@);
    r
}

/// One client's account.
///
/// The account keeps its total balance and the list of transactions under
/// dispute; the held funds are the sum of that list and are never stored on
/// their own. Disputing a transaction twice, or resolving it twice, therefore
/// cannot count its amount twice: membership in the list is the guard.
#[derive(Debug)]
pub struct Account {
    id: ClientId,
    balance: i128,
    is_locked: bool,
    disputes: Vec<Transaction>,
}

impl View for Account {
    type V = AccountView;

    closed spec fn view(&self) -> AccountView {
        AccountView {
            id: self.id,
            total: self.balance as int,
            locked: self.is_locked,
            disputes: self.disputes@,
        }
    }
}

impl Account {
    pub open spec fn wf(&self) -> bool {
        self@.wf()
    }

    /// An empty, unlocked account of client `id`.
    pub fn new(id: ClientId) -> (r: Account)
        ensures
            r@ == AccountView::fresh(id),
            r.wf(),
    {
        Account { id, balance: 0, is_locked: false, disputes: Vec::new() }
    }

    /// The funds under dispute: the sum of the disputed amounts.
    pub fn get_held(&self) -> (r: Balance)
        requires
            self.wf(),
        ensures
            r.units == self@.held(),
            0 <= r.units <= 0x1_0000 * (u64::MAX as int),
    {
        proof {
            lemma_distinct_ids_bounded(self.disputes@);
        }
        let mut sum: i128 = 0;
        let mut i: usize = 0;
        while i < self.disputes.len()
            invariant
                i <= self.disputes@.len() <= 0x1_0000,
                sum as int == sum_amounts(self.disputes@.subrange(0, i as int)),
                0 <= sum <= i * (u64::MAX as int),
            decreases self.disputes@.len() - i,
        {
            let t = self.disputes[i];
            proof {
                let next = self.disputes@.subrange(0, i + 1);
                assert(next.drop_last() == self.disputes@.subrange(0, i as int));
                assert(next.last() == t);
            }
            let units: u64 = match t.amount {
                Some(a) => a.units,
                None => 0,
            };
            sum = sum + units as i128;
            i += 1;
        }
        assert(self.disputes@.subrange(0, self.disputes@.len() as int) == self.disputes@);
        Balance { units: sum }
    }

    /// The funds that may be withdrawn: the total less the held funds.
    pub fn get_available(&self) -> (r: Balance)
        requires
            self.wf(),
        ensures
            r.units == self@.available(),
            -0x1_0001 * (u64::MAX as int) <= r.units,
    {
        let held = self.get_held();
        Balance { units: self.balance - held.units }
    }

    /// The ledger balance, funds under dispute included.
    pub fn get_total(&self) -> (r: Balance)
        ensures
            r.units == self@.total,
    {
        Balance { units: self.balance }
    }

    /// Whether a chargeback has frozen the account.
    pub fn is_locked(&self) -> (r: bool)
        ensures
            r == self@.locked,
    {
        self.is_locked
    }

    pub fn get_id(&self) -> (r: ClientId)
        ensures
            r == self@.id,
    {
        self.id
    }

    /// Whether the transaction with id `tx` is under dispute.
    pub fn is_disputed(&self, tx: TransactionId) -> (r: bool)
        ensures
            r == self@.is_disputed(tx),
    {
        position_of(&self.disputes, tx).is_some()
    }

    /// Credits `amount` to the account, unless it is locked.
    pub fn deposit(&mut self, amount: Amount) -> (r: Result<(), TransactionError>)
        requires
            old(self).wf(),
            !old(self)@.locked ==> old(self)@.total + amount.units <= i128::MAX as int,
        ensures
            final(self).wf(),
            (final(self)@, r) == deposit_spec(old(self)@, amount),
    {
        if self.is_locked {
            return Err(TransactionError::AccountLocked);
        }
        self.balance = self.balance + amount.units as i128;
        Ok(())
    }

    /// Debits `amount` from the account, unless it is locked or the
    /// available funds do not cover it.
    pub fn withdraw(&mut self, amount: Amount) -> (r: Result<(), TransactionError>)
        requires
            old(self).wf(),
        ensures
            final(self).wf(),
            (final(self)@, r) == withdraw_spec(old(self)@, amount),
    {
        if self.is_locked {
            return Err(TransactionError::AccountLocked);
        }
        let available = self.get_available();
        if available.units - amount.units as i128 >= 0 {
            proof {
                lemma_sum_nonneg(self.disputes@);
            }
            self.balance = self.balance - amount.units as i128;
            Ok(())
        } else {
            Err(TransactionError::Overdraft { available, transaction_amount: amount })
        }
    }

    /// Applies one transaction to the account and tells whether it must be
    /// kept in the history, where later disputes look it up.
    ///
    /// `transaction_store` holds the deposits and withdrawals applied
    /// earlier, each under the `history_key` of its client and id. A refused
    /// transaction leaves the account unchanged.
    pub fn apply_transaction(
        &mut self,
        transaction_store: &HashMap<u32, Transaction>,
        transaction: &Transaction,
    ) -> (r: Result<bool, TransactionError>)
        requires
            old(self).wf(),
            history_wf(transaction_store@),
            old(self)@.admits(*transaction),
        ensures
            final(self).wf(),
            (final(self)@, r) == apply_spec(old(self)@, transaction_store@, *transaction),
    {
        proof {
            lemma_apply_preserves_wf(self@, transaction_store@, *transaction);
        }
        if self.is_locked {
            return Err(TransactionError::AccountLocked);
        }
        match transaction.transaction_type {
            TransactionType::Deposit => {
                let amount = transaction.amount.unwrap();
                match self.deposit(amount) {
                    Ok(()) => Ok(true),
                    Err(e) => Err(e),
                }
            },
            TransactionType::Withdraw => {
                let amount = transaction.amount.unwrap();
                match self.withdraw(amount) {
                    Ok(()) => Ok(true),
                    Err(e) => Err(e),
                }
            },
            TransactionType::Dispute => {
                let key = history_key(self.id, transaction.tx);
                if let Some(disputed) = transaction_store.get(&key) {
                    if !self.is_disputed(transaction.tx) {
                        self.disputes.push(*disputed);
                    }
                }
                Ok(false)
            },
            TransactionType::Resolve => {
                self.disputes = without_tx(&self.disputes, transaction.tx);
                Ok(false)
            },
            TransactionType::Chargeback => {
                match position_of(&self.disputes, transaction.tx) {
                    Some(i) => {
                        let units: u64 = match self.disputes[i].amount {
                            Some(a) => a.units,
                            None => 0,
                        };
                        proof {
                            lemma_amount_of_single(self.disputes@, transaction.tx, i as int);
                        }
                        self.is_locked = true;
                        self.disputes = without_tx(&self.disputes, transaction.tx);
                        self.balance = self.balance - units as i128;
                        Ok(false)
                    },
                    None => Err(TransactionError::TransactionNotDisputed),
                }
            },
        }
    }
}

} // verus!
