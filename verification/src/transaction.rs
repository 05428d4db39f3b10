use crate::errors::LedgerError;
use vstd::prelude::*;

verus! {

/// The five instructions the ledger understands.
#[derive(Clone, Copy, Debug, PartialEq, Eq, Structural)]
pub enum TransactionType {
    Deposit,
    Withdrawal,
    Dispute,
    Resolve,
    Chargeback,
}

/// An incoming instruction for the ledger.
///
/// `amount` is a fixed-point value in units of 1/10_000 of a currency unit.
/// It must be present for deposits and withdrawals and absent for disputes,
/// resolves and chargebacks; `Transaction::new` enforces that shape and the
/// ledger re-checks it.
#[derive(Clone, Copy, Debug, PartialEq, Eq)]
pub struct Transaction {
    pub transaction_type: TransactionType,
    pub client_id: i32,
    pub transaction_id: i32,
    pub amount: Option<u64>,
}

/// How many fields a raw transaction row carries:
/// type, client id, transaction id, amount.
pub const TRANSACTION_FIELDS: usize = 4;

/// The amount field is present exactly where the transaction type calls
/// for one.
pub open spec fn amount_shape_ok(t: TransactionType, amount: Option<u64>) -> bool {
    match t {
        TransactionType::Deposit => amount is Some,
        TransactionType::Withdrawal => amount is Some,
        TransactionType::Dispute => amount is None,
        TransactionType::Resolve => amount is None,
        TransactionType::Chargeback => amount is None,
    }
}

impl Transaction {
    /// Validated construction: a deposit or withdrawal must carry a
    /// positive amount, and the referencing types must carry none.
    pub fn new(
        transaction_type: TransactionType,
        client_id: i32,
        transaction_id: i32,
        amount: Option<u64>,
    ) -> (r: Result<Transaction, LedgerError>)
        ensures
            !amount_shape_ok(transaction_type, amount) ==> r == Err::<Transaction, LedgerError>(
                LedgerError::MalformedAmount,
            ),
            amount_shape_ok(transaction_type, amount) && amount == Some(0u64) ==> r == Err::<
                Transaction,
                LedgerError,
            >(LedgerError::NonPositiveAmount),
            amount_shape_ok(transaction_type, amount) && amount != Some(0u64) ==> r == Ok::<
                Transaction,
                LedgerError,
            >(Transaction { transaction_type, client_id, transaction_id, amount }),
    {
        let shape_ok = match (transaction_type, amount) {
            (TransactionType::Deposit, Some(_)) => true,
            (TransactionType::Withdrawal, Some(_)) => true,
            (TransactionType::Dispute, None) => true,
            (TransactionType::Resolve, None) => true,
            (TransactionType::Chargeback, None) => true,
            _ => false,
        };
        if !shape_ok {
            Err(LedgerError::MalformedAmount)
        } else if amount == Some(0u64) {
            Err(LedgerError::NonPositiveAmount)
        } else {
            Ok(Transaction { transaction_type, client_id, transaction_id, amount })
        }
    }
}

} // verus!
