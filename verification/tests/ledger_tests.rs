use ledger::account::Account;
use ledger::errors::LedgerError;
use ledger::ledger::Ledger;
use ledger::transaction::{Transaction, TransactionType};

fn tx(
    transaction_type: TransactionType,
    client_id: i32,
    transaction_id: i32,
    amount: Option<u64>,
) -> Transaction {
    Transaction { transaction_type, client_id, transaction_id, amount }
}

fn deposit(c: i32, t: i32, a: u64) -> Transaction {
    tx(TransactionType::Deposit, c, t, Some(a))
}

fn withdrawal(c: i32, t: i32, a: u64) -> Transaction {
    tx(TransactionType::Withdrawal, c, t, Some(a))
}

fn dispute(c: i32, t: i32) -> Transaction {
    tx(TransactionType::Dispute, c, t, None)
}

fn resolve(c: i32, t: i32) -> Transaction {
    tx(TransactionType::Resolve, c, t, None)
}

fn chargeback(c: i32, t: i32) -> Transaction {
    tx(TransactionType::Chargeback, c, t, None)
}

fn balances(l: &Ledger, c: i32) -> (u64, u64, u64, bool) {
    let a = l.find_account_by_client_id(c).expect("account should exist");
    (a.available, a.held, a.total, a.locked)
}

#[test]
fn test_duplicates() {
    let mut l = Ledger::new();
    assert_eq!(l.apply(&deposit(200, 1, 100_000)), Ok(()));
    assert_eq!(
        l.apply(&deposit(200, 1, 100_000)),
        Err(LedgerError::DuplicateTransaction)
    );
    // only the first transaction with id 1 left a trace
    assert_eq!(l.accounts().len(), 1);
    assert_eq!(balances(&l, 200), (100_000, 0, 100_000, false));
}

#[test]
fn duplicate_withdrawal_changes_nothing() {
    let mut l = Ledger::new();
    assert_eq!(l.apply(&deposit(1, 1, 100_000)), Ok(()));
    assert_eq!(l.apply(&withdrawal(1, 2, 40_000)), Ok(()));
    assert_eq!(
        l.apply(&withdrawal(1, 2, 40_000)),
        Err(LedgerError::DuplicateTransaction)
    );
    assert_eq!(balances(&l, 1), (60_000, 0, 60_000, false));
}

#[test]
fn scenario_deposit_builds_balance() {
    let mut l = Ledger::new();
    assert_eq!(l.apply(&deposit(1, 1, 100_000)), Ok(()));
    assert_eq!(balances(&l, 1), (100_000, 0, 100_000, false));
}

#[test]
fn scenario_withdrawal_beyond_available_is_rejected() {
    let mut l = Ledger::new();
    assert_eq!(l.apply(&deposit(1, 1, 100_000)), Ok(()));
    assert_eq!(
        l.apply(&withdrawal(1, 2, 150_000)),
        Err(LedgerError::InsufficientFunds)
    );
    assert_eq!(balances(&l, 1), (100_000, 0, 100_000, false));
}

#[test]
fn scenario_dispute_then_resolve_restores_balance() {
    let mut l = Ledger::new();
    assert_eq!(l.apply(&deposit(1, 1, 100_000)), Ok(()));
    assert_eq!(l.apply(&dispute(1, 1)), Ok(()));
    assert_eq!(balances(&l, 1), (0, 100_000, 100_000, false));
    assert_eq!(l.apply(&resolve(1, 1)), Ok(()));
    assert_eq!(balances(&l, 1), (100_000, 0, 100_000, false));
}

#[test]
fn scenario_chargeback_locks_account() {
    let mut l = Ledger::new();
    assert_eq!(l.apply(&deposit(1, 1, 100_000)), Ok(()));
    assert_eq!(l.apply(&dispute(1, 1)), Ok(()));
    assert_eq!(l.apply(&chargeback(1, 1)), Ok(()));
    assert_eq!(balances(&l, 1), (0, 0, 0, true));
    assert_eq!(l.apply(&deposit(1, 3, 50_000)), Err(LedgerError::AccountLocked));
    assert_eq!(
        l.apply(&withdrawal(1, 4, 1)),
        Err(LedgerError::AccountLocked)
    );
    assert_eq!(balances(&l, 1), (0, 0, 0, true));
}

#[test]
fn scenario_dispute_of_unknown_transaction_is_rejected() {
    let mut l = Ledger::new();
    assert_eq!(l.apply(&dispute(1, 99)), Err(LedgerError::UnknownTransaction));
    assert_eq!(l.accounts().len(), 0);
}

#[test]
fn withdrawal_of_whole_balance_succeeds() {
    let mut l = Ledger::new();
    assert_eq!(l.apply(&deposit(7, 1, 25_000)), Ok(()));
    assert_eq!(l.apply(&withdrawal(7, 2, 25_000)), Ok(()));
    assert_eq!(balances(&l, 7), (0, 0, 0, false));
}

#[test]
fn withdrawal_without_account_is_rejected() {
    let mut l = Ledger::new();
    assert_eq!(
        l.apply(&withdrawal(9, 1, 1)),
        Err(LedgerError::InsufficientFunds)
    );
    assert_eq!(l.accounts().len(), 0);
}

#[test]
fn missing_amount_is_malformed() {
    let mut l = Ledger::new();
    assert_eq!(
        l.apply(&tx(TransactionType::Deposit, 1, 1, None)),
        Err(LedgerError::MalformedAmount)
    );
    assert_eq!(
        l.apply(&tx(TransactionType::Withdrawal, 1, 1, None)),
        Err(LedgerError::MalformedAmount)
    );
    assert_eq!(l.accounts().len(), 0);
}

#[test]
fn stray_amount_is_malformed() {
    let mut l = Ledger::new();
    assert_eq!(l.apply(&deposit(1, 1, 100_000)), Ok(()));
    assert_eq!(
        l.apply(&tx(TransactionType::Dispute, 1, 1, Some(5))),
        Err(LedgerError::MalformedAmount)
    );
    assert_eq!(
        l.apply(&tx(TransactionType::Resolve, 1, 1, Some(5))),
        Err(LedgerError::MalformedAmount)
    );
    assert_eq!(
        l.apply(&tx(TransactionType::Chargeback, 1, 1, Some(5))),
        Err(LedgerError::MalformedAmount)
    );
    assert_eq!(balances(&l, 1), (100_000, 0, 100_000, false));
}

#[test]
fn zero_amount_is_rejected() {
    let mut l = Ledger::new();
    assert_eq!(l.apply(&deposit(1, 1, 0)), Err(LedgerError::NonPositiveAmount));
    assert_eq!(
        l.apply(&withdrawal(1, 2, 0)),
        Err(LedgerError::NonPositiveAmount)
    );
    assert_eq!(l.accounts().len(), 0);
}

#[test]
fn dispute_from_wrong_client_is_rejected() {
    let mut l = Ledger::new();
    assert_eq!(l.apply(&deposit(1, 1, 100_000)), Ok(()));
    assert_eq!(l.apply(&dispute(2, 1)), Err(LedgerError::ClientMismatch));
    assert_eq!(l.apply(&resolve(2, 1)), Err(LedgerError::ClientMismatch));
    assert_eq!(l.apply(&chargeback(2, 1)), Err(LedgerError::ClientMismatch));
    assert_eq!(balances(&l, 1), (100_000, 0, 100_000, false));
}

#[test]
fn second_dispute_of_same_record_is_rejected() {
    let mut l = Ledger::new();
    assert_eq!(l.apply(&deposit(1, 1, 100_000)), Ok(()));
    assert_eq!(l.apply(&dispute(1, 1)), Ok(()));
    assert_eq!(l.apply(&dispute(1, 1)), Err(LedgerError::AlreadyDisputed));
    assert_eq!(balances(&l, 1), (0, 100_000, 100_000, false));
}

#[test]
fn resolve_needs_an_open_dispute() {
    let mut l = Ledger::new();
    assert_eq!(l.apply(&deposit(1, 1, 100_000)), Ok(()));
    assert_eq!(l.apply(&resolve(1, 1)), Err(LedgerError::NoOpenDispute));
    assert_eq!(l.apply(&resolve(1, 42)), Err(LedgerError::NoOpenDispute));
    assert_eq!(l.apply(&chargeback(1, 1)), Err(LedgerError::NoOpenDispute));
    assert_eq!(balances(&l, 1), (100_000, 0, 100_000, false));
}

#[test]
fn dispute_after_spending_is_rejected() {
    // the deposited funds are gone, so there is nothing left to hold
    let mut l = Ledger::new();
    assert_eq!(l.apply(&deposit(1, 1, 100_000)), Ok(()));
    assert_eq!(l.apply(&withdrawal(1, 2, 100_000)), Ok(()));
    assert_eq!(l.apply(&dispute(1, 1)), Err(LedgerError::InsufficientFunds));
    assert_eq!(balances(&l, 1), (0, 0, 0, false));
}

#[test]
fn deposit_beyond_balance_capacity_is_rejected() {
    let mut l = Ledger::new();
    assert_eq!(l.apply(&deposit(1, 1, u64::MAX)), Ok(()));
    assert_eq!(l.apply(&deposit(1, 2, 1)), Err(LedgerError::BalanceOverflow));
    assert_eq!(balances(&l, 1), (u64::MAX, 0, u64::MAX, false));
}

#[test]
fn disputes_may_still_settle_on_a_locked_account() {
    let mut l = Ledger::new();
    assert_eq!(l.apply(&deposit(1, 1, 60_000)), Ok(()));
    assert_eq!(l.apply(&deposit(1, 2, 40_000)), Ok(()));
    assert_eq!(l.apply(&dispute(1, 1)), Ok(()));
    assert_eq!(l.apply(&dispute(1, 2)), Ok(()));
    assert_eq!(l.apply(&chargeback(1, 1)), Ok(()));
    assert_eq!(balances(&l, 1), (0, 40_000, 40_000, true));
    // the second dispute can still be resolved after the lock
    assert_eq!(l.apply(&resolve(1, 2)), Ok(()));
    assert_eq!(balances(&l, 1), (40_000, 0, 40_000, true));
}

#[test]
fn accounts_come_out_sorted_by_client_id() {
    let mut l = Ledger::new();
    assert_eq!(l.apply(&deposit(5, 1, 10)), Ok(()));
    assert_eq!(l.apply(&deposit(2, 2, 20)), Ok(()));
    assert_eq!(l.apply(&deposit(9, 3, 30)), Ok(()));
    assert_eq!(l.apply(&deposit(-4, 4, 40)), Ok(()));
    let accs: Vec<Account> = l.accounts();
    let ids: Vec<i32> = accs.iter().map(|a| a.client_id).collect();
    assert_eq!(ids, vec![-4, 2, 5, 9]);
    assert_eq!(accs[1].available, 20);
}

#[test]
fn find_account_by_client_id_misses_unknown_clients() {
    let mut l = Ledger::new();
    assert_eq!(l.apply(&deposit(1, 1, 10)), Ok(()));
    assert!(l.find_account_by_client_id(1).is_some());
    assert!(l.find_account_by_client_id(2).is_none());
}

#[test]
fn every_account_stays_balanced_through_a_mixed_stream() {
    let mut l = Ledger::new();
    let stream = vec![
        deposit(1, 1, 100_000),
        deposit(2, 2, 50_000),
        withdrawal(1, 3, 30_000),
        dispute(1, 1),
        withdrawal(2, 2, 1), // duplicate id, rejected
        resolve(1, 1),
        dispute(2, 2),
        chargeback(2, 2),
        deposit(2, 4, 10_000), // locked, rejected
        withdrawal(1, 5, 70_000),
    ];
    for t in &stream {
        let _ = l.apply(t);
        for a in l.accounts() {
            assert_eq!(a.total, a.available + a.held);
        }
    }
    assert_eq!(balances(&l, 1), (0, 0, 0, false));
    assert_eq!(balances(&l, 2), (0, 0, 0, true));
}

#[test]
fn transaction_new_checks_the_amount_shape() {
    assert_eq!(
        Transaction::new(TransactionType::Deposit, 1, 1, Some(100_000)),
        Ok(deposit(1, 1, 100_000))
    );
    assert_eq!(
        Transaction::new(TransactionType::Deposit, 1, 1, None),
        Err(LedgerError::MalformedAmount)
    );
    assert_eq!(
        Transaction::new(TransactionType::Deposit, 1, 1, Some(0)),
        Err(LedgerError::NonPositiveAmount)
    );
    assert_eq!(
        Transaction::new(TransactionType::Dispute, 1, 1, Some(1)),
        Err(LedgerError::MalformedAmount)
    );
    assert_eq!(
        Transaction::new(TransactionType::Resolve, 1, 1, None),
        Ok(resolve(1, 1))
    );
}
