use vstd::prelude::*;

verus! {

/// Why the ledger rejected a transaction. Every rejection is recoverable:
/// the ledger's state is left exactly as it was and later transactions are
/// processed normally.
#[derive(Clone, Copy, Debug, PartialEq, Eq, Structural)]
pub enum LedgerError {
    /// A deposit or withdrawal reused a transaction id that is already
    /// recorded.
    DuplicateTransaction,
    /// A deposit or withdrawal named an account that a chargeback locked.
    AccountLocked,
    /// A withdrawal asked for more than the available funds, or a dispute
    /// asked to hold more than the available funds.
    InsufficientFunds,
    /// A dispute referenced a transaction id that was never recorded.
    UnknownTransaction,
    /// A dispute referenced a record that is already under dispute.
    AlreadyDisputed,
    /// A resolve or chargeback referenced a record with no open dispute,
    /// or a transaction id that was never recorded, or the record's held
    /// amount is no longer covered.
    NoOpenDispute,
    /// A dispute, resolve or chargeback came from a client that does not
    /// own the referenced record.
    ClientMismatch,
    /// The amount field was missing where required (deposit, withdrawal)
    /// or present where forbidden (dispute, resolve, chargeback).
    MalformedAmount,
    /// A deposit or withdrawal carried an amount of zero.
    NonPositiveAmount,
    /// Applying the amount would push the account's total beyond what a
    /// balance field can hold.
    BalanceOverflow,
}

/// Raised by a driver when the service around the ledger cannot be built.
pub struct TransactionServiceCreationError(pub String);

/// Raised by a driver when a transaction cannot be carried through.
pub struct TransactionFailedError(pub String);

impl TransactionServiceCreationError {
    /// The human-readable description the error was built with.
    pub fn message(&self) -> (m: &String)
        ensures
            m@ == self.0@,
    {
        &self.0
    }
}

impl TransactionFailedError {
    /// The human-readable description the error was built with.
    pub fn message(&self) -> (m: &String)
        ensures
            m@ == self.0@,
    {
        &self.0
    }
}

} // verus!
