use banking_transactions::engine::{Account, Ledger, Transaction, TransactionType};
use banking_transactions::errors::{
    ChargebackError, DepositError, DisputeError, DuplicateTransactionError, ResolveError,
    TransactionError, WithdrawalError,
};
use banking_transactions::input::parse_amount;
use banking_transactions::money::Decimal;

fn amount(text: &str) -> Option<Decimal> {
    Some(parse_amount(text.as_bytes()).unwrap())
}

fn transaction(kind: TransactionType, client: u16, tx: u32, value: Option<&str>) -> Transaction {
    Transaction { kind, client, tx, amount: value.map(|v| parse_amount(v.as_bytes()).unwrap()) }
}

#[test]
fn should_fail_to_make_deposit_with_no_amount() {
    let mut ledger = Ledger::default();
    let client = 1u16;
    let tx = Transaction { kind: TransactionType::Deposit, client, tx: 1, amount: None };
    assert_eq!(
        ledger.process_transaction(&tx).unwrap_err(),
        TransactionError::Deposit(DepositError::AmountRequired)
    );
}

#[test]
fn should_fail_to_deposit_negative_amount() {
    let mut ledger = Ledger::default();
    let client = 1u16;
    let tx = Transaction { kind: TransactionType::Deposit, client, tx: 1, amount: amount("-1.0") };
    assert_eq!(
        ledger.process_transaction(&tx).unwrap_err(),
        TransactionError::Deposit(DepositError::NegativeDeposit)
    );
    assert_eq!(ledger.account(client), None);
}

#[test]
fn should_deposit_funds_to_new_account() {
    let mut ledger = Ledger::default();
    let client = 1u16;
    let tx = Transaction { kind: TransactionType::Deposit, client, tx: 1, amount: amount("1.0") };
    let result = ledger.process_transaction(&tx);
    assert!(result.is_ok());
    assert_eq!(
        ledger.account(client),
        Some(Account { client, available: 10000, held: 0, total: 10000, locked: false })
    );
}

#[test]
fn should_fail_to_deposit_duplicate_transaction() {
    let mut ledger = Ledger::default();
    let client = 1u16;
    let tx1 = Transaction { kind: TransactionType::Deposit, client, tx: 1, amount: amount("1.0") };
    assert!(ledger.process_transaction(&tx1).is_ok());
    assert_eq!(
        ledger.account(client),
        Some(Account { client, available: 10000, held: 0, total: 10000, locked: false })
    );
    let tx2 = Transaction { kind: TransactionType::Deposit, client, tx: 1u32, amount: amount("1.0") };
    assert_eq!(
        ledger.process_transaction(&tx2).unwrap_err(),
        TransactionError::Deposit(DepositError::DuplicateTx(DuplicateTransactionError::new(1)))
    );
    assert_eq!(
        ledger.account(client),
        Some(Account { client, available: 10000, held: 0, total: 10000, locked: false })
    );
}

#[test]
fn should_deposit_multiple_transactions() {
    let mut ledger = Ledger::default();
    let client = 1u16;
    let tx1 = Transaction { kind: TransactionType::Deposit, client, tx: 1, amount: amount("1.0") };
    let tx2 = Transaction { kind: TransactionType::Deposit, client, tx: 2, amount: amount("1.0") };
    assert!(ledger.process_transactions(&Vec::from([tx1, tx2])).is_ok());
    assert_eq!(
        ledger.account(client),
        Some(Account { client, available: 20000, held: 0, total: 20000, locked: false })
    );
}

#[test]
fn should_fail_to_deposit_to_a_locked_account() {
    let mut ledger = Ledger::default();
    let client = 1u16;
    let tx1 = Transaction { kind: TransactionType::Deposit, client, tx: 1, amount: amount("1.0") };
    assert!(ledger.process_transaction(&tx1).is_ok());
    ledger.lock_account(client).unwrap();
    let tx2 = Transaction { kind: TransactionType::Deposit, client, tx: 2, amount: amount("1.0") };
    assert_eq!(
        ledger.process_transaction(&tx2).unwrap_err(),
        TransactionError::Deposit(DepositError::AccountLocked)
    );
}

#[test]
fn should_fail_to_make_withdrawal_with_no_amount() {
    let mut ledger = Ledger::default();
    let client = 1u16;
    let tx = Transaction { kind: TransactionType::Withdrawal, client, tx: 1, amount: None };
    assert_eq!(
        ledger.process_transaction(&tx).unwrap_err(),
        TransactionError::Withdrawal(WithdrawalError::AmountRequired)
    );
}

#[test]
fn should_fail_to_withdraw_negative_amount() {
    let mut ledger = Ledger::default();
    let client = 1u16;
    let tx = Transaction { kind: TransactionType::Withdrawal, client, tx: 1, amount: amount("-1.0") };
    assert_eq!(
        ledger.process_transaction(&tx).unwrap_err(),
        TransactionError::Withdrawal(WithdrawalError::NegativeWithdrawal)
    );
}

#[test]
fn should_fail_to_withdraw_from_a_locked_account() {
    let mut ledger = Ledger::default();
    let client = 1u16;
    let tx1 = Transaction { kind: TransactionType::Deposit, client, tx: 1, amount: amount("10.0") };
    assert!(ledger.process_transaction(&tx1).is_ok());
    ledger.lock_account(client).unwrap();
    let tx2 = Transaction { kind: TransactionType::Withdrawal, client, tx: 2, amount: amount("1.0") };
    assert_eq!(
        ledger.process_transaction(&tx2).unwrap_err(),
        TransactionError::Withdrawal(WithdrawalError::AccountLocked)
    );
}

#[test]
fn should_fail_to_withdraw_from_an_account_with_insufficient_funds() {
    let mut ledger = Ledger::default();
    let client = 1u16;
    let tx1 = Transaction { kind: TransactionType::Deposit, client, tx: 1, amount: amount("10.0") };
    assert!(ledger.process_transaction(&tx1).is_ok());
    let tx2 = Transaction { kind: TransactionType::Withdrawal, client, tx: 2, amount: amount("20.0") };
    assert_eq!(
        ledger.process_transaction(&tx2).unwrap_err(),
        TransactionError::Withdrawal(WithdrawalError::InsufficientFunds(200000, 100000))
    );
}

#[test]
fn should_fail_to_withdraw_from_an_unknown_account() {
    let mut ledger = Ledger::default();
    let client = 1u16;
    let tx1 = Transaction { kind: TransactionType::Withdrawal, client, tx: 1, amount: amount("20.0") };
    assert_eq!(
        ledger.process_transaction(&tx1).unwrap_err(),
        TransactionError::Withdrawal(WithdrawalError::NoSuchAccount(client))
    );
}

#[test]
fn should_withdraw_from_account() {
    let mut ledger = Ledger::default();
    let client = 1u16;
    let tx1 = Transaction { kind: TransactionType::Deposit, client, tx: 1, amount: amount("10.0") };
    assert!(ledger.process_transaction(&tx1).is_ok());
    for tx_id in 1..10 {
        let tx = Transaction {
            kind: TransactionType::Withdrawal,
            client,
            tx: tx_id + 1,
            amount: amount("1.0"),
        };
        assert!(ledger.process_transaction(&tx).is_ok());
    }
    assert_eq!(
        ledger.account(client),
        Some(Account { client, available: 10000, held: 0, total: 10000, locked: false })
    );
}

#[test]
fn should_fail_to_dispute_a_dispute() {
    let mut ledger = Ledger::default();
    let client = 1u16;
    let tx1 = Transaction { kind: TransactionType::Deposit, client, tx: 1, amount: amount("1.0") };
    assert!(ledger.process_transaction(&tx1).is_ok());
    // A history entry without an amount cannot arise from processing; it is
    // recorded directly.
    ledger
        .record_transaction(&Transaction { kind: TransactionType::Dispute, client, tx: 2, amount: None })
        .unwrap();
    let tx3 = Transaction { kind: TransactionType::Dispute, client, tx: 2, amount: None };
    assert_eq!(
        ledger.process_transaction(&tx3).unwrap_err(),
        TransactionError::Dispute(DisputeError::AmountRequired)
    );
}

#[test]
fn should_dispute_a_deposit() {
    let mut ledger = Ledger::default();
    let client = 1u16;
    let tx1 = Transaction { kind: TransactionType::Deposit, client, tx: 1, amount: amount("1.0") };
    assert!(ledger.process_transaction(&tx1).is_ok());
    let tx2 = Transaction { kind: TransactionType::Dispute, client, tx: 1, amount: None };
    assert!(ledger.process_transaction(&tx2).is_ok());
    assert!(ledger.is_disputed(1));
}

#[test]
fn should_dispute_a_withdrawal() {
    let mut ledger = Ledger::default();
    let client = 1u16;
    let tx1 = Transaction { kind: TransactionType::Deposit, client, tx: 1, amount: amount("10.0") };
    let tx2 = Transaction { kind: TransactionType::Withdrawal, client, tx: 2, amount: amount("5.0") };
    assert!(ledger.process_transactions(&Vec::from([tx1, tx2])).is_ok());
    let tx3 = Transaction { kind: TransactionType::Dispute, client, tx: 2, amount: None };
    assert!(ledger.process_transaction(&tx3).is_ok());
    assert!(ledger.is_disputed(2));
}

#[test]
fn should_resolve_a_disputed_transaction() {
    let mut ledger = Ledger::default();
    let client = 1u16;
    let tx1 = Transaction { kind: TransactionType::Deposit, client, tx: 1, amount: amount("10.0") };
    let tx2 = Transaction { kind: TransactionType::Dispute, client, tx: 1, amount: None };
    let tx3 = Transaction { kind: TransactionType::Resolve, client, tx: 1, amount: None };
    assert!(ledger.process_transactions(&Vec::from([tx1, tx2, tx3])).is_ok());
    assert_eq!(
        ledger.account(client),
        Some(Account { client, available: 100000, held: 0, total: 100000, locked: false })
    );
}

#[test]
fn should_fail_to_resolve_a_transaction_with_no_amount() {
    let mut ledger = Ledger::default();
    let client = 1u16;
    let tx1 = Transaction { kind: TransactionType::Deposit, client, tx: 1, amount: amount("1.0") };
    assert!(ledger.process_transaction(&tx1).is_ok());
    ledger
        .record_transaction(&Transaction { kind: TransactionType::Dispute, client, tx: 2, amount: None })
        .unwrap();
    ledger.mark_disputed(2);
    let tx3 = Transaction { kind: TransactionType::Resolve, client, tx: 2, amount: None };
    assert_eq!(
        ledger.process_transaction(&tx3).unwrap_err(),
        TransactionError::Resolve(ResolveError::AmountRequired)
    );
}

#[test]
fn should_chargeback_a_disputed_transaction() {
    let mut ledger = Ledger::default();
    let client = 1u16;
    let tx1 = Transaction { kind: TransactionType::Deposit, client, tx: 1, amount: amount("10.0") };
    let tx2 = Transaction { kind: TransactionType::Deposit, client, tx: 2, amount: amount("1000.0") };
    let tx3 = Transaction { kind: TransactionType::Dispute, client, tx: 2, amount: None };
    let tx4 = Transaction { kind: TransactionType::Chargeback, client, tx: 2, amount: None };
    assert!(ledger.process_transactions(&Vec::from([tx1, tx2, tx3, tx4])).is_ok());
    assert_eq!(
        ledger.account(client),
        Some(Account { client, available: 100000, held: 0, total: 100000, locked: true })
    );
}

#[test]
fn should_fail_to_chargeback_a_transaction_with_no_amount() {
    let mut ledger = Ledger::default();
    let client = 1u16;
    let tx1 = Transaction { kind: TransactionType::Deposit, client, tx: 1, amount: amount("1.0") };
    assert!(ledger.process_transaction(&tx1).is_ok());
    ledger
        .record_transaction(&Transaction { kind: TransactionType::Dispute, client, tx: 2, amount: None })
        .unwrap();
    ledger.mark_disputed(2);
    let tx3 = Transaction { kind: TransactionType::Chargeback, client, tx: 2, amount: None };
    assert_eq!(
        ledger.process_transaction(&tx3).unwrap_err(),
        TransactionError::Chargeback(ChargebackError::AmountRequired)
    );
}

#[test]
fn should_round_values() {
    let mut ledger = Ledger::default();
    let client = 1u16;
    let tx = Transaction { kind: TransactionType::Deposit, client, tx: 1, amount: amount("8.675309") };
    assert!(ledger.process_transaction(&tx).is_ok());
    assert_eq!(
        ledger.account(client),
        Some(Account { client, available: 86753, held: 0, total: 86753, locked: false })
    );
}

#[test]
fn should_generate_statement_report() {
    let mut ledger = Ledger::default();
    let tx1 = transaction(TransactionType::Deposit, 1, 1, Some("10.0"));
    let tx2 = transaction(TransactionType::Deposit, 2, 2, Some("20.0"));
    let tx3 = transaction(TransactionType::Deposit, 3, 3, Some("30.0"));
    assert!(ledger.process_transactions(&Vec::from([tx1, tx2, tx3])).is_ok());
    let result = ledger.generate_account_statements();
    assert!(result.is_ok());
    let output = result.unwrap();
    assert!(output.starts_with("client,available,held,total,locked\n"));
    let expected_lines = [
        "1,10.0,0.0,10.0,false\n",
        "2,20.0,0.0,20.0,false\n",
        "3,30.0,0.0,30.0,false\n",
    ];
    for line in expected_lines {
        assert!(output.contains(line));
    }
}
