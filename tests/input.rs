use banking_transactions::engine::{Account, Ledger, TransactionType};
use banking_transactions::errors::{InputError, TransactionError, Warning, WithdrawalError};
use banking_transactions::input::{parse_amount, parse_kind, parse_unsigned};
use banking_transactions::money::Decimal;

#[test]
fn amounts_are_read_exactly() {
    assert_eq!(parse_amount(b"8.675309"), Some(Decimal { mantissa: 8675309, scale: 6 }));
    assert_eq!(parse_amount(b"10"), Some(Decimal { mantissa: 10, scale: 0 }));
    assert_eq!(parse_amount(b"-1.0"), Some(Decimal { mantissa: -10, scale: 1 }));
    assert_eq!(parse_amount(b"+2.5"), Some(Decimal { mantissa: 25, scale: 1 }));
    assert_eq!(parse_amount(b".5"), Some(Decimal { mantissa: 5, scale: 1 }));
    assert_eq!(parse_amount(b"3."), Some(Decimal { mantissa: 3, scale: 0 }));
    assert_eq!(
        parse_amount(b"-922337203685477.5808"),
        Some(Decimal { mantissa: i64::MIN, scale: 4 })
    );
}

#[test]
fn malformed_amounts_are_refused() {
    assert_eq!(parse_amount(b""), None);
    assert_eq!(parse_amount(b"-"), None);
    assert_eq!(parse_amount(b"."), None);
    assert_eq!(parse_amount(b"1.2.3"), None);
    assert_eq!(parse_amount(b"1e5"), None);
    assert_eq!(parse_amount(b"abc"), None);
    assert_eq!(parse_amount(b"922337203685477.5808"), None);
    assert_eq!(parse_amount(b"99999999999999999999"), None);
}

#[test]
fn ids_are_read_within_range() {
    assert_eq!(parse_unsigned(b"65535", 65535), Some(65535));
    assert_eq!(parse_unsigned(b"65536", 65535), None);
    assert_eq!(parse_unsigned(b"4294967295", 4294967295), Some(4294967295));
    assert_eq!(parse_unsigned(b"007", 100), Some(7));
    assert_eq!(parse_unsigned(b"", 100), None);
    assert_eq!(parse_unsigned(b"-1", 100), None);
    assert_eq!(parse_unsigned(b"1 ", 100), None);
}

#[test]
fn kinds_ignore_case() {
    assert_eq!(parse_kind(b"deposit"), Some(TransactionType::Deposit));
    assert_eq!(parse_kind(b"Withdrawal"), Some(TransactionType::Withdrawal));
    assert_eq!(parse_kind(b"DISPUTE"), Some(TransactionType::Dispute));
    assert_eq!(parse_kind(b"reSolve"), Some(TransactionType::Resolve));
    assert_eq!(parse_kind(b"chargeback"), Some(TransactionType::Chargeback));
    assert_eq!(parse_kind(b"charge back"), None);
    assert_eq!(parse_kind(b"deposits"), None);
}

#[test]
fn csv_input_builds_a_ledger() {
    let input = b"type, client, tx, amount\n\
                  deposit, 1, 1, 1.0\n\
                  DEPOSIT,2,2,2.0\n\
                  withdrawal, 1, 3, 1.5\n\
                  dispute,2,2,\n\
                  resolve, 2, 7\n";
    let (ledger, warnings) = Ledger::from_csv(input).unwrap();
    assert_eq!(
        warnings,
        vec![Warning {
            tx: 3,
            error: TransactionError::Withdrawal(WithdrawalError::InsufficientFunds(15000, 10000))
        }]
    );
    assert_eq!(
        ledger.account(1),
        Some(Account { client: 1, available: 10000, held: 0, total: 10000, locked: false })
    );
    assert_eq!(
        ledger.account(2),
        Some(Account { client: 2, available: 0, held: 20000, total: 20000, locked: false })
    );
}

#[test]
fn csv_columns_may_come_in_any_order() {
    let input = b"client,amount,tx,type\n3,4.5,1,deposit\n";
    let (ledger, warnings) = Ledger::from_csv(input).unwrap();
    assert!(warnings.is_empty());
    assert_eq!(ledger.account(3).unwrap().available, 45000);
}

#[test]
fn empty_csv_input_gives_an_empty_ledger() {
    let (ledger, warnings) = Ledger::from_csv(b"").unwrap();
    assert!(warnings.is_empty());
    assert_eq!(ledger.account(1), None);
    assert_eq!(
        ledger.generate_account_statements().unwrap(),
        "client,available,held,total,locked\n"
    );
}

#[test]
fn csv_header_without_ids_is_refused() {
    let result = Ledger::from_csv(b"type,client,amount\ndeposit,1,1.0\n");
    assert!(matches!(result, Err(InputError::MissingColumn)));
}

#[test]
fn csv_record_that_is_no_transaction_is_refused() {
    let result = Ledger::from_csv(b"type,client,tx,amount\ndeposit,1,1,1.0\ndeposit,1,x,1.0\n");
    assert!(matches!(result, Err(InputError::InvalidRecord(2))));
    let result = Ledger::from_csv(b"type,client,tx,amount\ntransfer,1,1,1.0\n");
    assert!(matches!(result, Err(InputError::InvalidRecord(1))));
    let result = Ledger::from_csv(b"type,client,tx,amount\ndeposit,70000,1,1.0\n");
    assert!(matches!(result, Err(InputError::InvalidRecord(1))));
}

#[test]
fn csv_fatal_transaction_error_stops_the_load() {
    let result = Ledger::from_csv(b"type,client,tx,amount\nwithdrawal,5,1,1.0\ndeposit,1,x,1\n");
    assert!(matches!(
        result,
        Err(InputError::Transaction(TransactionError::Withdrawal(WithdrawalError::NoSuchAccount(5))))
    ));
}

#[test]
fn records_build_a_ledger() {
    let records: Vec<Vec<Vec<u8>>> = vec![
        vec![b"type".to_vec(), b"client".to_vec(), b"tx".to_vec(), b"amount".to_vec()],
        vec![b"deposit".to_vec(), b"9".to_vec(), b"1".to_vec(), b"0.12345".to_vec()],
        vec![b"dispute".to_vec(), b"9".to_vec(), b"1".to_vec()],
    ];
    let (ledger, warnings) = Ledger::from_records(&records).unwrap();
    assert!(warnings.is_empty());
    assert_eq!(
        ledger.account(9),
        Some(Account { client: 9, available: 0, held: 1235, total: 1235, locked: false })
    );
    assert!(ledger.is_disputed(1));
}
