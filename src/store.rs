//! The ledger: every client's account, and the history that disputes refer to.
use std::collections::HashMap;
use vstd::prelude::*;

use crate::account::{apply_spec, history_wf, Account, AccountView};
use crate::error::TransactionError;
use crate::id::{history_key, spec_history_key, ClientId};
use crate::transaction::{amount_value, Transaction, TransactionType};

verus! {

broadcast use vstd::std_specs::hash::group_hash_axioms;

/// The mathematical state of the ledger.
pub struct LedgerView {
    /// The account of each client that some transaction has named.
    pub accounts: Map<ClientId, AccountView>,
    /// Those clients, in the order in which they were first named.
    pub order: Seq<ClientId>,
    /// The applied deposits and withdrawals, under `spec_history_key`.
    pub history: Map<u32, Transaction>,
}

impl LedgerView {
    /// The ledger at the start of a run.
    pub open spec fn empty() -> LedgerView {
        LedgerView { accounts: Map::empty(), order: Seq::empty(), history: Map::empty() }
    }

    /// The account of client `c`; a fresh one where `c` has not been named.
    pub open spec fn account_of(self, c: ClientId) -> AccountView {
        if self.accounts.contains_key(c) {
            self.accounts[c]
        } else {
            AccountView::fresh(c)
        }
    }

    /// Whether the account that `t` names can take it.
    pub open spec fn admits(self, t: Transaction) -> bool {
        self.account_of(t.client).admits(t)
    }

    /// What the ledger keeps true between transactions.
    pub open spec fn wf(self) -> bool {
        &&& forall|c: ClientId| #[trigger]
            self.accounts.contains_key(c) ==> self.accounts[c].wf() && self.accounts[c].id == c
        &&& self.order.no_duplicates()
        &&& forall|c: ClientId| self.accounts.contains_key(c) <==> #[trigger] self.order.contains(c)
        &&& history_wf(self.history)
    }

    /// The ledger after `t`, and `t` with the reason for which it was refused,
    /// if it was. The account that `t` names is created if it is new, even
    /// when `t` is refused; an accepted deposit or withdrawal joins the
    /// history.
    pub open spec fn step(self, t: Transaction) -> (LedgerView, Result<(), (Transaction, TransactionError)>) {
        let c = t.client;
        let (a, res) = apply_spec(self.account_of(c), self.history, t);
        (
            LedgerView {
                accounts: self.accounts.insert(c, a),
                order: if self.accounts.contains_key(c) {
                    self.order
                } else {
                    self.order.push(c)
                },
                history: if res == Ok::<bool, TransactionError>(true) {
                    self.history.insert(spec_history_key(c, t.tx), t)
                } else {
                    self.history
                },
            },
            match res {
                Ok(_) => Ok(()),
                Err(e) => Err((t, e)),
            },
        )
    }
}

/// The ledger after applying the transactions of `ts` in order to `v`.
pub open spec fn replay(v: LedgerView, ts: Seq<Transaction>) -> LedgerView
    decreases ts.len(),
{
    if ts.len() == 0 {
        v
    } else {
        replay(v, ts.drop_last()).step(ts.last()).0
    }
}

/// Every step keeps the ledger well-formed.
pub proof fn lemma_step_preserves_wf(v: LedgerView, t: Transaction)
    requires
        v.wf(),
        v.admits(t),
    ensures
        v.step(t).0.wf(),
{
    let c = t.client;
    let n = v.step(t).0;
    crate::account::lemma_apply_preserves_wf(v.account_of(c), v.history, t);
    if !v.accounts.contains_key(c) {
        assert(!v.order.contains(c));
        assert forall|x: ClientId| n.accounts.contains_key(x) <==> #[trigger] n.order.contains(x) by {
            if x != c {
                assert(n.order.contains(x) ==> v.order.contains(x)) by {
                    if n.order.contains(x) {
                        let i = choose|i: int| 0 <= i < n.order.len() && n.order[i] == x;
                        assert(v.order[i] == x);
                    }
                }
                assert(v.order.contains(x) ==> n.order.contains(x)) by {
                    if v.order.contains(x) {
                        let i = choose|i: int| 0 <= i < v.order.len() && v.order[i] == x;
                        assert(n.order[i] == x);
                    }
                }
            } else {
                assert(n.order[n.order.len() - 1] == c);
            }
        }
    }
    let (a, res) = apply_spec(v.account_of(c), v.history, t);
    if res == Ok::<bool, TransactionError>(true) {
        crate::id::lemma_history_key_injective(t.client, t.tx, t.client, t.tx);
    }
}

/// The sum of the amounts that the deposits of `ts` bring to client `c`.
pub open spec fn deposited(ts: Seq<Transaction>, c: ClientId) -> int
    decreases ts.len(),
{
    if ts.len() == 0 {
        0
    } else {
        deposited(ts.drop_last(), c) + if ts.last().client == c && ts.last().transaction_type is Deposit {
            amount_value(ts.last())
        } else {
            0
        }
    }
}

/// The sum of the amounts of the withdrawals of `ts` from client `c` that
/// were accepted when `ts` was replayed on `v`.
pub open spec fn withdrawn(v: LedgerView, ts: Seq<Transaction>, c: ClientId) -> int
    decreases ts.len(),
{
    if ts.len() == 0 {
        0
    } else {
        let t = ts.last();
        withdrawn(v, ts.drop_last(), c) + if t.client == c && t.transaction_type is Withdraw && replay(
            v,
            ts.drop_last(),
        ).step(t).1 is Ok {
            amount_value(t)
        } else {
            0
        }
    }
}

/// Replaying a log whose every step the ledger admits keeps the ledger
/// well-formed; so at every point each account's available and held funds
/// add up to its total, and its held funds are not negative.
pub proof fn replay_keeps_balances_consistent(v: LedgerView, ts: Seq<Transaction>)
    requires
        v.wf(),
        forall|i: int| 0 <= i < ts.len() ==> #[trigger] replay(v, ts.subrange(0, i)).admits(ts[i]),
    ensures
        replay(v, ts).wf(),
        forall|c: ClientId| #[trigger] replay(v, ts).account_of(c).wf(),
        forall|c: ClientId|
            #![trigger replay(v, ts).account_of(c)]
            replay(v, ts).account_of(c).available() + replay(v, ts).account_of(c).held()
                == replay(v, ts).account_of(c).total && replay(v, ts).account_of(c).held() >= 0,
    decreases ts.len(),
{
    if ts.len() > 0 {
        let p = ts.drop_last();
        assert forall|i: int| 0 <= i < p.len() implies #[trigger] replay(v, p.subrange(0, i)).admits(p[i]) by {
            assert(p.subrange(0, i) == ts.subrange(0, i));
            assert(replay(v, ts.subrange(0, i)).admits(ts[i]));
        }
        replay_keeps_balances_consistent(v, p);
        assert(ts.subrange(0, ts.len() - 1) == p);
        assert(replay(v, ts.subrange(0, ts.len() - 1)).admits(ts[ts.len() - 1]));
        lemma_step_preserves_wf(replay(v, p), ts.last());
    }
    assert forall|c: ClientId| #[trigger] replay(v, ts).account_of(c).wf() by {
    }
    assert forall|c: ClientId|
        #![trigger replay(v, ts).account_of(c)]
        replay(v, ts).account_of(c).available() + replay(v, ts).account_of(c).held()
            == replay(v, ts).account_of(c).total && replay(v, ts).account_of(c).held() >= 0 by {
        crate::account::balances_consistent(replay(v, ts).account_of(c));
    }
}

/// Once an account is locked, no later transaction, of any kind and for any
/// client, changes it.
pub proof fn lock_is_permanent(v: LedgerView, ts: Seq<Transaction>, c: ClientId)
    requires
        v.account_of(c).locked,
    ensures
        replay(v, ts).account_of(c) == v.account_of(c),
    decreases ts.len(),
{
    if ts.len() > 0 {
        lock_is_permanent(v, ts.drop_last(), c);
    }
}

/// For a log of deposits and withdrawals only, replayed from the empty
/// ledger, each client's total is what its deposits brought in less what its
/// accepted withdrawals took out; refused withdrawals count for nothing. No
/// account gets locked.
pub proof fn conservation(ts: Seq<Transaction>, c: ClientId)
    requires
        forall|i: int|
            0 <= i < ts.len() ==> (#[trigger] ts[i].transaction_type is Deposit
                || ts[i].transaction_type is Withdraw) && ts[i].spec_is_well_formed(),
    ensures
        replay(LedgerView::empty(), ts).account_of(c).total == deposited(ts, c) - withdrawn(
            LedgerView::empty(),
            ts,
            c,
        ),
        !replay(LedgerView::empty(), ts).account_of(c).locked,
    decreases ts.len(),
{
    if ts.len() > 0 {
        let p = ts.drop_last();
        assert forall|i: int| 0 <= i < p.len() implies (#[trigger] p[i].transaction_type is Deposit
            || p[i].transaction_type is Withdraw) && p[i].spec_is_well_formed() by {
            assert(p[i] == ts[i]);
        }
        conservation(p, c);
        let t = ts.last();
        assert(t == ts[ts.len() - 1]);
    }
}

/// The ledger of one run: all accounts, in the order in which their clients
/// first appeared, and the history of applied deposits and withdrawals.
#[derive(Debug)]
pub struct Store {
    accounts: Vec<Account>,
    /// The position in `accounts` of each client's account.
    slots: HashMap<u16, usize>,
    transactions: HashMap<u32, Transaction>,
}

impl View for Store {
    type V = LedgerView;

    closed spec fn view(&self) -> LedgerView {
        LedgerView {
            accounts: Map::new(
                |c: ClientId| self.slots@.contains_key(c.0),
                |c: ClientId| self.accounts@[self.slots@[c.0] as int]@,
            ),
            order: self.accounts@.map_values(|a: Account| a@.id),
            history: self.transactions@,
        }
    }
}

impl Store {
    pub closed spec fn wf(&self) -> bool {
        &&& forall|i: int|
            0 <= i < self.accounts@.len() ==> {
                let a = #[trigger] self.accounts@[i];
                &&& a.wf()
                &&& self.slots@.contains_key(a@.id.0)
                &&& self.slots@[a@.id.0] == i
            }
        &&& forall|k: u16| #[trigger]
            self.slots@.contains_key(k) ==> {
                &&& self.slots@[k] < self.accounts@.len()
                &&& self.accounts@[self.slots@[k] as int]@.id.0 == k
            }
        &&& history_wf(self.transactions@)
    }

    proof fn lemma_view_wf(&self)
        requires
            self.wf(),
        ensures
            self@.wf(),
    {
        let v = self@;
        assert forall|c: ClientId| #[trigger] v.accounts.contains_key(c) implies v.accounts[c].wf()
            && v.accounts[c].id == c by {
            let i = self.slots@[c.0] as int;
            assert(self.accounts@[i]@.id.0 == c.0);
        }
        assert(v.order.no_duplicates()) by {
            assert forall|i: int, j: int| 0 <= i < v.order.len() && 0 <= j < v.order.len() && i != j
                implies v.order[i] != v.order[j] by {
                let a = self.accounts@[i];
                let b = self.accounts@[j];
                assert(self.slots@[a@.id.0] == i);
                assert(self.slots@[b@.id.0] == j);
            }
        }
        assert forall|c: ClientId| v.accounts.contains_key(c) <==> #[trigger] v.order.contains(c) by {
            if v.accounts.contains_key(c) {
                let i = self.slots@[c.0] as int;
                assert(self.accounts@[i]@.id.0 == c.0);
                assert(v.order[i] == c);
            }
            if v.order.contains(c) {
                let i = choose|i: int| 0 <= i < v.order.len() && v.order[i] == c;
                assert(self.accounts@[i]@.id == c);
            }
        }
    }

    /// An empty ledger.
    pub fn new() -> (r: Store)
        ensures
            r.wf(),
            r@ == LedgerView::empty(),
    {
        let r = Store { accounts: Vec::new(), slots: HashMap::new(), transactions: HashMap::new() };
        assert(r@.accounts =~= Map::empty());
        assert(r@.order =~= Seq::empty());
        r
    }

    /// Tells whether `apply_transaction` can take `transaction`: it must be
    /// well-formed, and a deposit must not carry the account's total past
    /// `i128::MAX` ten-thousandths.
    pub fn admits(&self, transaction: &Transaction) -> (r: bool)
        requires
            self.wf(),
        ensures
            r == self@.admits(*transaction),
    {
        if !transaction.is_well_formed() {
            return false;
        }
        match transaction.transaction_type {
            TransactionType::Deposit => {},
            _ => {
                return true;
            },
        }
        match self.slots.get(&transaction.client.0) {
            Some(i) => {
                let account = &self.accounts[*i];
                if account.is_locked() {
                    return true;
                }
                let units: u64 = match transaction.amount {
                    Some(a) => a.units,
                    None => 0,
                };
                account.get_total().units.checked_add(units as i128).is_some()
            },
            None => true,
        }
    }

    /// Routes `transaction` to the account of its client, creating that
    /// account on first sight, and keeps an accepted deposit or withdrawal in
    /// the history. A refused transaction comes back with the reason.
    pub fn apply_transaction(&mut self, transaction: Transaction) -> (r: Result<
        (),
        (Transaction, TransactionError),
    >)
        requires
            old(self).wf(),
            old(self)@.admits(transaction),
        ensures
            final(self).wf(),
            final(self)@.wf(),
            (final(self)@, r) == old(self)@.step(transaction),
    {
        let ghost old_v = self@;
        let ghost old_accounts = self.accounts@;
        let c = transaction.client;
        let i: usize = match self.slots.get(&c.0) {
            Some(i) => *i,
            None => {
                let i = self.accounts.len();
                self.accounts.push(Account::new(c));
                self.slots.insert(c.0, i);
                i
            },
        };
        let ghost mid_accounts = self.accounts@;
        proof {
            assert(mid_accounts[i as int]@ == old_v.account_of(c));
            assert(mid_accounts[i as int].wf());
        }
        let result = self.accounts[i].apply_transaction(&self.transactions, &transaction);
        let ghost applied = self.accounts@[i as int];
        let r = match result {
            Ok(true) => {
                self.transactions.insert(history_key(c, transaction.tx), transaction);
                Ok(())
            },
            Ok(false) => Ok(()),
            Err(err) => Err((transaction, err)),
        };
        proof {
            let (a, res) = apply_spec(old_v.account_of(c), old_v.history, transaction);
            assert(applied@ == a);
            assert(self.accounts@ == mid_accounts.update(i as int, applied));
            let n = old_v.step(transaction).0;
            assert forall|x: ClientId| #[trigger] self@.accounts.contains_key(x) == n.accounts.contains_key(x) by {
                if x != c && self.slots@.contains_key(x.0) {
                    assert(old_v.accounts.contains_key(x));
                }
            }
            assert forall|x: ClientId| #[trigger] self@.accounts.contains_key(x) implies self@.accounts[x] == n.accounts[x] by {
                if x != c {
                    let j = self.slots@[x.0] as int;
                    assert(mid_accounts[j]@.id.0 == x.0);
                    assert(j != i);
                }
            }
            assert(self@.accounts =~= n.accounts);
            if old_v.accounts.contains_key(c) {
                assert forall|j: int| 0 <= j < self@.order.len() implies self@.order[j] == old_v.order[j] by {
                    if j == i {
                        assert(mid_accounts[j]@.id == c);
                    }
                }
                assert(self@.order =~= n.order);
            } else {
                assert forall|j: int| 0 <= j < self@.order.len() implies self@.order[j] == n.order[j] by {
                    if j < old_accounts.len() {
                        assert(mid_accounts[j] == old_accounts[j]);
                    }
                }
                assert(self@.order =~= n.order);
            }
            self.lemma_view_wf();
        }
        r
    }

    /// The accounts, in the order in which their clients first appeared.
    pub fn get_accounts(&self) -> (r: &Vec<Account>)
        requires
            self.wf(),
        ensures
            r@.len() == self@.order.len(),
            forall|i: int| 0 <= i < r@.len() ==> #[trigger] r@[i]@ == self@.accounts[self@.order[i]],
            forall|i: int| 0 <= i < r@.len() ==> (#[trigger] r@[i]).wf(),
    {
        &self.accounts
    }

    /// The applied deposits and withdrawals, under `history_key`.
    pub fn get_transactions(&self) -> (r: &HashMap<u32, Transaction>)
        ensures
            r@ == self@.history,
    {
        &self.transactions
    }
}

} // verus!
