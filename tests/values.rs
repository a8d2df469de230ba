use pseudo_bank::{
    history_key, Amount, Balance, ClientId, Store, Transaction, TransactionId, TransactionType,
};

#[test]
fn amounts_from_decimal_parts() {
    assert_eq!(Amount::from_scaled(15, 1), Some(Amount::from_units(15_000)));
    assert_eq!(Amount::from_scaled(15, 4), Some(Amount::from_units(15)));
    assert_eq!(Amount::from_scaled(7, 0), Some(Amount::from_whole(7)));
    assert_eq!(Amount::from_scaled(15, 5), None);
    assert_eq!(Amount::from_scaled(u64::MAX as u128, 1), None);
    assert_eq!(Amount::from_scaled(u128::MAX, 0), None);
    assert_eq!(Amount::from_scaled(u64::MAX as u128, 4), Some(Amount::from_units(u64::MAX)));
    assert_eq!(Amount::from_whole(10).units, 100_000);
}

#[test]
fn balances_from_decimal_parts() {
    assert_eq!(Balance::from_scaled(-15, 1), Some(Balance::from_units(-15_000)));
    assert_eq!(Balance::from_scaled(123, 2), Some(Balance::from_units(12_300)));
    assert_eq!(Balance::from_scaled(1, 9), None);
    assert_eq!(Balance::from_scaled(i128::MAX, 0), None);
    assert_eq!(Balance::from_whole(-3).units, -30_000);
}

#[test]
fn history_keys_pack_both_ids() {
    assert_eq!(history_key(ClientId(1), TransactionId(2)), 0x1_0002);
    assert_eq!(history_key(ClientId(0), TransactionId(0)), 0);
    assert_eq!(history_key(ClientId(u16::MAX), TransactionId(u16::MAX)), u32::MAX);
    assert_ne!(history_key(ClientId(2), TransactionId(1)), history_key(ClientId(1), TransactionId(2)));
}

#[test]
fn records_without_amount_are_malformed() {
    let mut t = Transaction {
        transaction_type: TransactionType::Deposit,
        client: ClientId(1),
        tx: TransactionId(1),
        amount: None,
    };
    assert!(!t.is_well_formed());
    let store = Store::new();
    assert!(!store.admits(&t));
    t.transaction_type = TransactionType::Withdraw;
    assert!(!t.is_well_formed());
    t.transaction_type = TransactionType::Dispute;
    assert!(t.is_well_formed());
    assert!(store.admits(&t));
    t.transaction_type = TransactionType::Deposit;
    t.amount = Some(Amount::from_whole(1));
    assert!(t.is_well_formed());
    assert!(store.admits(&t));
}

#[test]
fn deposit_and_withdraw_on_account() {
    let mut account = pseudo_bank::Account::new(ClientId(4));
    assert_eq!(account.deposit(Amount::from_whole(3)), Ok(()));
    assert_eq!(account.withdraw(Amount::from_whole(1)), Ok(()));
    assert_eq!(account.get_total(), Balance::from_whole(2));
    assert_eq!(
        account.withdraw(Amount::from_whole(5)),
        Err(pseudo_bank::TransactionError::Overdraft {
            available: Balance::from_whole(2),
            transaction_amount: Amount::from_whole(5),
        })
    );
    assert!(!account.is_disputed(TransactionId(1)));
}
