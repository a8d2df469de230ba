use pseudo_bank::{Amount, ClientId, Store, Transaction, TransactionId, TransactionType};

#[test]
fn creates_accounts_and_transactions() {
    let mut store = Store::new();
    let mut deposit = Transaction {
        transaction_type: TransactionType::Deposit,
        client: ClientId(0),
        tx: TransactionId(1),
        amount: Some(Amount::from_whole(10)),
    };

    assert_eq!(store.get_accounts().len(), 0);
    assert_eq!(store.get_transactions().len(), 0);

    deposit.client = ClientId(1);
    assert!(store.apply_transaction(deposit.clone()).is_ok());
    deposit.client = ClientId(2);
    assert!(store.apply_transaction(deposit.clone()).is_ok());
    deposit.client = ClientId(3);
    assert!(store.apply_transaction(deposit.clone()).is_ok());

    assert_eq!(store.get_accounts().len(), 3);
    assert_eq!(store.get_transactions().len(), 3);

    deposit.transaction_type = TransactionType::Dispute;
    assert!(store.apply_transaction(deposit.clone()).is_ok());
    assert_eq!(store.get_accounts().len(), 3);
    assert_eq!(store.get_transactions().len(), 3);
}
