use csv::StringRecord;
use ledger::account::Account;
use ledger::errors::{TransactionFailedError, TransactionServiceCreationError};
use ledger::factory::{AccountFactory, TransactionFactory};
use ledger::transaction::{Transaction, TransactionType, TRANSACTION_FIELDS};

fn row(fields: Vec<&str>) -> StringRecord {
    StringRecord::from(fields)
}

#[test]
fn a_deposit_row_parses() {
    let rec = row(vec!["deposit", "1", "2", "10.0"]);
    assert_eq!(rec.len(), TRANSACTION_FIELDS);
    let tx = TransactionFactory::create_transaction(&rec).expect("row should parse");
    assert_eq!(
        tx,
        Transaction {
            transaction_type: TransactionType::Deposit,
            client_id: 1,
            transaction_id: 2,
            amount: Some(100_000),
        }
    );
}

#[test]
fn every_keyword_is_recognised() {
    let funded = vec![
        ("deposit", TransactionType::Deposit),
        ("withdrawal", TransactionType::Withdrawal),
    ];
    for (word, expected) in funded {
        let rec = row(vec![word, "3", "4", "1.0"]);
        let tx = TransactionFactory::create_transaction(&rec).expect("row should parse");
        assert_eq!(tx.transaction_type, expected);
        assert_eq!(tx.client_id, 3);
        assert_eq!(tx.transaction_id, 4);
        assert_eq!(tx.amount, Some(10_000));
    }
    let referencing = vec![
        ("dispute", TransactionType::Dispute),
        ("resolve", TransactionType::Resolve),
        ("chargeback", TransactionType::Chargeback),
    ];
    for (word, expected) in referencing {
        let rec = row(vec![word, "3", "4", ""]);
        let tx = TransactionFactory::create_transaction(&rec).expect("row should parse");
        assert_eq!(tx.transaction_type, expected);
        assert_eq!(tx.client_id, 3);
        assert_eq!(tx.transaction_id, 4);
        assert_eq!(tx.amount, None);
    }
}

#[test]
fn the_amount_field_must_fit_the_transaction_type() {
    // a deposit or withdrawal without a positive amount yields no transaction
    assert!(TransactionFactory::create_transaction(&row(vec!["deposit", "1", "2", ""]))
        .is_none());
    assert!(TransactionFactory::create_transaction(&row(vec!["withdrawal", "1", "2", ""]))
        .is_none());
    assert!(TransactionFactory::create_transaction(&row(vec!["deposit", "1", "2", "0"]))
        .is_none());
    assert!(TransactionFactory::create_transaction(&row(vec!["withdrawal", "1", "2", "0.0000"]))
        .is_none());
    // a referencing transaction must leave the amount field empty
    assert!(TransactionFactory::create_transaction(&row(vec!["dispute", "1", "2", "1.0"]))
        .is_none());
    assert!(TransactionFactory::create_transaction(&row(vec!["resolve", "1", "2", "1.0"]))
        .is_none());
    assert!(TransactionFactory::create_transaction(&row(vec!["chargeback", "1", "2", "0"]))
        .is_none());
}

#[test]
fn numeric_fields_tolerate_whitespace() {
    let rec = row(vec!["withdrawal", " 12 ", "\t34", " 1.5 "]);
    let tx = TransactionFactory::create_transaction(&rec).expect("row should parse");
    assert_eq!(tx.client_id, 12);
    assert_eq!(tx.transaction_id, 34);
    assert_eq!(tx.amount, Some(15_000));
}

#[test]
fn unknown_type_keyword_is_rejected() {
    assert!(TransactionFactory::create_transaction(&row(vec!["transfer", "1", "2", "1.0"]))
        .is_none());
    // the match is exact: no trimming, no case folding
    assert!(TransactionFactory::create_transaction(&row(vec![" deposit", "1", "2", "1.0"]))
        .is_none());
    assert!(TransactionFactory::create_transaction(&row(vec!["Deposit", "1", "2", "1.0"]))
        .is_none());
}

#[test]
fn short_rows_are_rejected() {
    assert!(TransactionFactory::create_transaction(&row(vec!["deposit", "1", "2"])).is_none());
    assert!(TransactionFactory::create_transaction(&row(vec!["deposit"])).is_none());
}

#[test]
fn malformed_numbers_are_rejected() {
    assert!(TransactionFactory::create_transaction(&row(vec!["deposit", "x", "2", "1.0"]))
        .is_none());
    assert!(TransactionFactory::create_transaction(&row(vec!["deposit", "1", "2.5", "1.0"]))
        .is_none());
    assert!(TransactionFactory::create_transaction(&row(vec!["deposit", "1", "2", "ten"]))
        .is_none());
    assert!(TransactionFactory::create_transaction(&row(vec!["deposit", "1", "2", " "]))
        .is_none());
}

#[test]
fn amounts_are_fixed_point_with_four_decimals() {
    let cases = vec![
        ("10", Some(100_000)),
        ("10.0", Some(100_000)),
        ("10.5", Some(105_000)),
        ("0.0001", Some(1)),
        ("3.1415", Some(31_415)),
        ("7.25", Some(72_500)),
    ];
    for (text, expected) in cases {
        let rec = row(vec!["deposit", "1", "2", text]);
        let tx = TransactionFactory::create_transaction(&rec).expect("row should parse");
        assert_eq!(tx.amount, expected, "amount text {}", text);
    }
    for bad in vec!["10.", ".5", "10.12345", "1.2.3", "-1.0"] {
        let rec = row(vec!["deposit", "1", "2", bad]);
        assert!(
            TransactionFactory::create_transaction(&rec).is_none(),
            "amount text {} should be rejected",
            bad
        );
    }
}

#[test]
fn client_and_transaction_ids_cover_the_i32_range() {
    let rec = row(vec!["deposit", "-2147483648", "2147483647", "1.0"]);
    let tx = TransactionFactory::create_transaction(&rec).expect("row should parse");
    assert_eq!(tx.client_id, i32::MIN);
    assert_eq!(tx.transaction_id, i32::MAX);
    assert!(TransactionFactory::create_transaction(&row(vec![
        "deposit",
        "1",
        "2147483648",
        "1.0"
    ]))
    .is_none());
}

#[test]
fn account_factory_builds_accounts() {
    let a = AccountFactory::create_account(7, 10, 30, 20, false);
    assert_eq!(
        a,
        Account { client_id: 7, available: 10, total: 30, held: 20, locked: false }
    );
    let d = AccountFactory::create_default_account(9);
    assert_eq!(
        d,
        Account { client_id: 9, available: 0, total: 0, held: 0, locked: false }
    );
}

#[test]
fn error_wrappers_keep_their_message() {
    let e = TransactionServiceCreationError(String::from("no store reachable"));
    assert_eq!(e.message().as_str(), "no store reachable");
    let f = TransactionFailedError(String::from("row refused"));
    assert_eq!(f.message().as_str(), "row refused");
}
