use std::collections::HashMap;

use pseudo_bank::{history_key, Account, Amount, Balance, ClientId, Transaction, TransactionId, TransactionType};

fn setup() -> (Account, HashMap<u32, Transaction>) {
    (Account::new(ClientId(1)), HashMap::new())
}

#[test]
fn test_deposit_withdraw() {
    let (mut account, transaction_store) = setup();

    let deposit = Transaction {
        transaction_type: TransactionType::Deposit,
        client: account.get_id(),
        tx: TransactionId(1),
        amount: Some(Amount::from_whole(10)),
    };
    let result = account.apply_transaction(&transaction_store, &deposit);
    assert!(result.is_ok());
    assert_eq!(account.get_available(), Balance::from_whole(10));

    let withdraw = Transaction {
        transaction_type: TransactionType::Withdraw,
        client: account.get_id(),
        tx: TransactionId(2),
        amount: Some(Amount::from_whole(5)),
    };
    let result = account.apply_transaction(&transaction_store, &withdraw);
    assert!(result.is_ok());
    assert_eq!(account.get_available(), Balance::from_whole(5));
}

#[test]
fn test_dispute_resolve() {
    let (mut account, mut transaction_store) = setup();

    let deposit = Transaction {
        transaction_type: TransactionType::Deposit,
        client: account.get_id(),
        tx: TransactionId(1),
        amount: Some(Amount::from_whole(10)),
    };
    let result = account.apply_transaction(&transaction_store, &deposit);
    assert!(result.is_ok());
    assert_eq!(account.get_available(), Balance::from_whole(10));

    transaction_store.insert(history_key(account.get_id(), deposit.tx), deposit);

    let dispute = Transaction {
        transaction_type: TransactionType::Dispute,
        client: account.get_id(),
        tx: TransactionId(1),
        amount: None,
    };
    let result = account.apply_transaction(&transaction_store, &dispute);
    assert!(result.is_ok());
    assert_eq!(account.get_available(), Balance::from_whole(0));
    assert_eq!(account.get_held(), Balance::from_whole(10));

    let resolve = Transaction {
        transaction_type: TransactionType::Resolve,
        client: account.get_id(),
        tx: TransactionId(1),
        amount: None,
    };
    let result = account.apply_transaction(&transaction_store, &resolve);
    assert!(result.is_ok());
    assert_eq!(account.get_available(), Balance::from_whole(10));
    assert_eq!(account.get_held(), Balance::from_whole(0));
}

#[test]
fn test_dispute_chargeback() {
    let (mut account, mut transaction_store) = setup();

    let deposit = Transaction {
        transaction_type: TransactionType::Deposit,
        client: account.get_id(),
        tx: TransactionId(1),
        amount: Some(Amount::from_whole(10)),
    };
    let result = account.apply_transaction(&transaction_store, &deposit);
    assert!(result.is_ok());
    assert_eq!(account.get_available(), Balance::from_whole(10));

    transaction_store.insert(history_key(account.get_id(), deposit.tx), deposit);

    let dispute = Transaction {
        transaction_type: TransactionType::Dispute,
        client: account.get_id(),
        tx: TransactionId(1),
        amount: None,
    };
    let result = account.apply_transaction(&transaction_store, &dispute);
    assert!(result.is_ok());
    assert_eq!(account.get_available(), Balance::from_whole(0));
    assert_eq!(account.get_held(), Balance::from_whole(10));

    let chargeback = Transaction {
        transaction_type: TransactionType::Chargeback,
        client: account.get_id(),
        tx: TransactionId(1),
        amount: None,
    };
    let result = account.apply_transaction(&transaction_store, &chargeback);
    assert!(result.is_ok());
    assert!(account.is_locked());
    assert_eq!(account.get_available(), Balance::from_whole(0));
    assert_eq!(account.get_held(), Balance::from_whole(0));

    let deposit = Transaction {
        transaction_type: TransactionType::Resolve,
        client: account.get_id(),
        tx: TransactionId(1),
        amount: None,
    };
    let result = account.apply_transaction(&transaction_store, &deposit);
    assert!(result.is_err());
    assert!(account.is_locked());
    assert_eq!(account.get_available(), Balance::from_whole(0));
    assert_eq!(account.get_held(), Balance::from_whole(0));
}
