use vstd::prelude::*;

verus! {

/// A client account as the ledger keeps it.
///
/// `available`, `held` and `total` are fixed-point amounts in units of
/// 1/10_000 of a currency unit.
#[derive(Clone, Copy, Debug, PartialEq, Eq, Structural)]
pub struct Account {
    pub client_id: i32,
    pub available: u64,
    pub total: u64,
    pub held: u64,
    pub locked: bool,
}

/// The total of an account is exactly its available funds plus its held
/// funds; since the fields are unsigned, all three are non-negative.
pub open spec fn balanced(a: Account) -> bool {
    a.total == a.available + a.held
}

/// The account that the first transaction naming an unseen client starts
/// from: empty balances, not locked.
pub open spec fn default_account(client_id: i32) -> Account {
    Account { client_id, available: 0, total: 0, held: 0, locked: false }
}

} // verus!
