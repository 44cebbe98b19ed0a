//! Tests of the per-account state machine. Amounts are in ten-thousandths
//! of a currency unit, so 100 units are written 100_0000.

use banking_exercise::models::account::{Account, AccountId, TransactionError};
use banking_exercise::models::transaction::{Transaction, TransactionId, TransactionType};

fn get_account() -> Account {
    Account::new(1.into())
}

#[test]
fn wrong_account() {
    let amount: i64 = 100_0000;
    let mut account = get_account();
    let txn = Transaction::new(
        TransactionId::from(1),
        123.into(),
        TransactionType::Deposit { amount },
    );

    assert!(
        matches!(
            account.process_txn(txn),
            Err(TransactionError::WrongAccount { .. })
        ),
        "a transaction ought to target the correct account"
    );
}

#[test]
fn deposit() {
    let amount: i64 = 100_0000;
    let mut account = get_account();
    let txn = Transaction::new(
        TransactionId::from(1),
        account.id(),
        TransactionType::Deposit { amount },
    );
    account.process_txn(txn).expect("deposit should apply");

    assert!(
        account.available() == amount as i128 && account.held() == 0,
        "account should have 100 units available after deposit"
    );

    assert!(
        matches!(
            account.process_txn(txn),
            Err(TransactionError::TransactionAlreadyProcessed { .. })
        ),
        "cannot process the same transaction more than once"
    );
}

#[test]
fn withdrawal() {
    let amount: i64 = 100_0000;
    let mut account = get_account();
    let txn = Transaction::new(
        TransactionId::from(1),
        account.id(),
        TransactionType::Deposit { amount },
    );
    account.process_txn(txn).expect("deposit should apply");

    assert!(
        account.available() == amount as i128 && account.held() == 0,
        "account should have 100 units available after deposit"
    );

    let txn = Transaction::new(
        TransactionId::from(2),
        account.id(),
        TransactionType::Withdrawal { amount },
    );
    account.process_txn(txn).expect("withdrawal should apply");

    assert_eq!(
        account.total(),
        0,
        "account should have 0 units available after the withdrawal"
    );

    let txn = Transaction::new(
        TransactionId::from(3),
        account.id(),
        TransactionType::Withdrawal { amount },
    );
    assert!(
        matches!(
            account.process_txn(txn),
            Err(TransactionError::InsufficientFunds { .. })
        ),
        "account cannot withdrawal with insufficient funds"
    );
}

#[test]
fn bad_dispute() {
    let mut account = get_account();
    let txn = Transaction::new(TransactionId::from(1), account.id(), TransactionType::Dispute);

    assert!(
        matches!(
            account.process_txn(txn),
            Err(TransactionError::TransactionNotFound { .. })
        ),
        "transaction cannot be put in dispute that does not exist"
    );
}

#[test]
fn resolve() {
    let amount: i64 = 100_0000;
    let mut account = get_account();
    let txn = Transaction::new(
        TransactionId::from(1),
        account.id(),
        TransactionType::Deposit { amount },
    );
    account.process_txn(txn).expect("deposit should apply");

    assert!(
        account.available() == amount as i128 && account.held() == 0,
        "account should have 100 units available after deposit"
    );

    let txn = Transaction::new(txn.id(), account.id(), TransactionType::Resolve);
    assert!(
        matches!(
            account.process_txn(txn),
            Err(TransactionError::TransactionNotInDispute { .. })
        ),
        "transaction that is not in dispute cannot be resolved"
    );

    let txn = Transaction::new(txn.id(), account.id(), TransactionType::Dispute);
    account.process_txn(txn).expect("dispute should apply");

    assert!(
        account.available() == 0 && account.held() == amount as i128,
        "account should have 0 units available and 100 on hold after dispute"
    );

    let txn = Transaction::new(txn.id(), account.id(), TransactionType::Dispute);
    assert!(
        matches!(
            account.process_txn(txn),
            Err(TransactionError::TransactionAlreadyInDispute { .. })
        ),
        "transaction cannot be put into dispute more than once"
    );

    let txn = Transaction::new(txn.id(), account.id(), TransactionType::Resolve);
    account.process_txn(txn).expect("resolve should apply");

    assert!(
        account.available() == amount as i128 && account.held() == 0,
        "account should have 100 units available after resolving the dispute"
    );
}

#[test]
fn chargeback() {
    let amount: i64 = 100_0000;
    let mut account = get_account();
    let txn = Transaction::new(
        TransactionId::from(1),
        account.id(),
        TransactionType::Deposit { amount },
    );
    account.process_txn(txn).expect("deposit should apply");

    assert!(
        account.available() == amount as i128 && account.held() == 0,
        "account should have 100 units available after deposit"
    );

    let txn = Transaction::new(txn.id(), account.id(), TransactionType::Dispute);
    account.process_txn(txn).expect("dispute should apply");

    assert!(
        account.available() == 0 && account.held() == amount as i128,
        "account should have 0 units available and 100 on hold after dispute"
    );

    let txn = Transaction::new(txn.id(), account.id(), TransactionType::Chargeback);
    account.process_txn(txn).expect("chargeback should apply");

    assert!(
        account.total() == 0 && account.locked(),
        "account should have 0 units available and be locked after a chargeback"
    );

    let txn = Transaction::new(
        TransactionId::from(2),
        account.id(),
        TransactionType::Deposit { amount },
    );
    assert!(
        matches!(
            account.process_txn(txn),
            Err(TransactionError::AccountLocked { .. })
        ),
        "account cannot process transactions while locked"
    );
}

#[test]
fn total_is_available_plus_held() {
    let mut account = get_account();
    let deposit = Transaction::new(
        TransactionId::from(1),
        account.id(),
        TransactionType::Deposit { amount: 75_5000 },
    );
    account.process_txn(deposit).expect("deposit should apply");
    let withdrawal = Transaction::new(
        TransactionId::from(2),
        account.id(),
        TransactionType::Withdrawal { amount: 25_0000 },
    );
    account.process_txn(withdrawal).expect("withdrawal should apply");
    let dispute = Transaction::new(TransactionId::from(1), account.id(), TransactionType::Dispute);
    account.process_txn(dispute).expect("dispute should apply");

    assert_eq!(account.available(), -25_0000);
    assert_eq!(account.held(), 75_5000);
    assert_eq!(account.total(), account.available() + account.held());
    assert_eq!(account.total(), 50_5000);
}

#[test]
fn locked_account_ignores_everything() {
    let mut account = get_account();
    let deposit = Transaction::new(
        TransactionId::from(1),
        account.id(),
        TransactionType::Deposit { amount: 10_0000 },
    );
    account.process_txn(deposit).expect("deposit should apply");
    let dispute = Transaction::new(TransactionId::from(1), account.id(), TransactionType::Dispute);
    account.process_txn(dispute).expect("dispute should apply");
    let chargeback =
        Transaction::new(TransactionId::from(1), account.id(), TransactionType::Chargeback);
    account.process_txn(chargeback).expect("chargeback should apply");

    let attempts = vec![
        TransactionType::Deposit { amount: 1_0000 },
        TransactionType::Withdrawal { amount: 1_0000 },
        TransactionType::Dispute,
        TransactionType::Resolve,
        TransactionType::Chargeback,
    ];
    for (i, t) in attempts.into_iter().enumerate() {
        let txn = Transaction::new(TransactionId::from(100 + i as u32), account.id(), t);
        assert!(
            matches!(
                account.process_txn(txn),
                Err(TransactionError::AccountLocked { .. })
            ),
            "every transaction on a locked account is rejected"
        );
        assert_eq!(account.available(), 0);
        assert_eq!(account.held(), 0);
        assert!(account.locked());
    }
}

#[test]
fn duplicate_withdrawal_id_is_rejected() {
    let mut account = get_account();
    let deposit = Transaction::new(
        TransactionId::from(7),
        account.id(),
        TransactionType::Deposit { amount: 30_0000 },
    );
    account.process_txn(deposit).expect("deposit should apply");
    let withdrawal = Transaction::new(
        TransactionId::from(7),
        account.id(),
        TransactionType::Withdrawal { amount: 5_0000 },
    );
    assert!(
        matches!(
            account.process_txn(withdrawal),
            Err(TransactionError::TransactionAlreadyProcessed { .. })
        ),
        "a monetary transaction id can be used only once"
    );
    assert_eq!(account.available(), 30_0000);
}

#[test]
fn chargeback_decreases_total_by_disputed_amount() {
    let mut account = get_account();
    let d1 = Transaction::new(
        TransactionId::from(1),
        account.id(),
        TransactionType::Deposit { amount: 40_0000 },
    );
    account.process_txn(d1).expect("deposit should apply");
    let d2 = Transaction::new(
        TransactionId::from(2),
        account.id(),
        TransactionType::Deposit { amount: 15_0000 },
    );
    account.process_txn(d2).expect("deposit should apply");
    let total_before = account.total();

    let dispute = Transaction::new(TransactionId::from(2), account.id(), TransactionType::Dispute);
    account.process_txn(dispute).expect("dispute should apply");
    assert_eq!(account.total(), total_before, "a dispute keeps the total");

    let chargeback =
        Transaction::new(TransactionId::from(2), account.id(), TransactionType::Chargeback);
    account.process_txn(chargeback).expect("chargeback should apply");
    assert_eq!(
        account.total(),
        total_before - 15_0000,
        "a chargeback removes exactly the disputed amount"
    );
}

#[test]
fn resolve_restores_pre_dispute_state() {
    let mut account = get_account();
    let deposit = Transaction::new(
        TransactionId::from(1),
        account.id(),
        TransactionType::Deposit { amount: 50_0000 },
    );
    account.process_txn(deposit).expect("deposit should apply");
    let available_before = account.available();
    let total_before = account.total();

    let dispute = Transaction::new(TransactionId::from(1), account.id(), TransactionType::Dispute);
    account.process_txn(dispute).expect("dispute should apply");
    assert_eq!(account.available(), 0);
    assert_eq!(account.held(), 50_0000);
    assert_eq!(account.total(), total_before);

    let resolve = Transaction::new(TransactionId::from(1), account.id(), TransactionType::Resolve);
    account.process_txn(resolve).expect("resolve should apply");
    assert_eq!(account.available(), available_before);
    assert_eq!(account.held(), 0);
    assert_eq!(account.total(), total_before);
    assert!(!account.locked());
}
