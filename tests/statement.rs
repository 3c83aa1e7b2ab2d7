use banking_transactions::engine::{Ledger, Transaction, TransactionType};
use banking_transactions::input::parse_amount;
use banking_transactions::statement::units_to_text;

fn entry(kind: TransactionType, client: u16, id: u32, value: Option<&str>) -> Transaction {
    Transaction { kind, client, tx: id, amount: value.map(|v| parse_amount(v.as_bytes()).unwrap()) }
}

#[test]
fn amounts_are_written_with_up_to_four_digits() {
    assert_eq!(units_to_text(100000), b"10.0".to_vec());
    assert_eq!(units_to_text(86753), b"8.6753".to_vec());
    assert_eq!(units_to_text(5000), b"0.5".to_vec());
    assert_eq!(units_to_text(1), b"0.0001".to_vec());
    assert_eq!(units_to_text(0), b"0.0".to_vec());
    assert_eq!(units_to_text(-12340), b"-1.234".to_vec());
    assert_eq!(units_to_text(i64::MIN), b"-922337203685477.5808".to_vec());
}

#[test]
fn statement_lists_accounts_in_opening_order() {
    let mut ledger = Ledger::new();
    let batch = vec![
        entry(TransactionType::Deposit, 2, 1, Some("1.0")),
        entry(TransactionType::Withdrawal, 2, 2, Some("1.0")),
        entry(TransactionType::Dispute, 2, 2, None),
        entry(TransactionType::Deposit, 1, 3, Some("8.675309")),
    ];
    ledger.process_transactions(&batch).unwrap();
    assert_eq!(
        ledger.generate_account_statements().unwrap(),
        "client,available,held,total,locked\n2,-1.0,1.0,0.0,false\n1,8.6753,0.0,8.6753,false\n"
    );
}

#[test]
fn statement_shows_locked_accounts() {
    let mut ledger = Ledger::new();
    let batch = vec![
        entry(TransactionType::Deposit, 7, 1, Some("2.5")),
        entry(TransactionType::Dispute, 7, 1, None),
        entry(TransactionType::Chargeback, 7, 1, None),
    ];
    ledger.process_transactions(&batch).unwrap();
    assert_eq!(
        ledger.generate_account_statements().unwrap(),
        "client,available,held,total,locked\n7,0.0,0.0,0.0,true\n"
    );
}
