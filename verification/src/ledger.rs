//! The ledger: the sole owner of account and transaction-history state.
//!
//! One operation advances the state machine: `Ledger::apply`. Its whole
//! effect, success or typed rejection, is the mathematical `step` function
//! below; a rejected transaction leaves the state exactly as it was. After
//! every call the well-formedness invariant holds: accounts are sorted by
//! client id with `total == available + held` on each, and recorded
//! transaction ids are unique.

use crate::account::{balanced, default_account, Account};
use crate::errors::LedgerError;
use crate::transaction::{Transaction, TransactionType};
use vstd::prelude::*;

verus! {

/// A deposit or withdrawal the ledger has applied, kept so that later
/// disputes can reference it. `disputed` is true while a dispute is open.
#[derive(Clone, Copy, Debug, PartialEq, Eq, Structural)]
pub struct TransactionRecord {
    pub transaction_id: i32,
    pub client_id: i32,
    pub amount: u64,
    pub disputed: bool,
}

/// The ledger's state as mathematics: the account list, sorted by client
/// id, and the history of applied deposits and withdrawals in order of
/// application.
#[verifier::ext_equal]
pub ghost struct LedgerModel {
    pub accounts: Seq<Account>,
    pub records: Seq<TransactionRecord>,
}

/// The state a fresh ledger starts in.
pub open spec fn empty_model() -> LedgerModel {
    LedgerModel { accounts: Seq::<Account>::empty(), records: Seq::<TransactionRecord>::empty() }
}

/// Some account in the list belongs to client `c`.
pub open spec fn has_account(accs: Seq<Account>, c: i32) -> bool {
    exists|i: int| 0 <= i < accs.len() && (#[trigger] accs[i]).client_id == c
}

/// The position of client `c`'s account, where one exists.
pub open spec fn account_index(accs: Seq<Account>, c: i32) -> int {
    choose|i: int| 0 <= i < accs.len() && (#[trigger] accs[i]).client_id == c
}

/// Client ids strictly increase along the list, so each client holds at
/// most one account.
pub open spec fn accounts_sorted(accs: Seq<Account>) -> bool {
    forall|i: int, j: int|
        0 <= i < j < accs.len() ==> (#[trigger] accs[i]).client_id < (#[trigger] accs[j]).client_id
}

/// Client `c`'s account, or the default account it would start from.
pub open spec fn account_or_default(accs: Seq<Account>, c: i32) -> Account {
    if has_account(accs, c) {
        accs[account_index(accs, c)]
    } else {
        default_account(c)
    }
}

/// Whether client `c`'s account is locked; a client with no account yet is
/// not locked.
pub open spec fn is_locked(accs: Seq<Account>, c: i32) -> bool {
    account_or_default(accs, c).locked
}

/// `p` is the position where an account for client `c` belongs in the
/// sorted list: everything before is smaller, everything after is larger.
pub open spec fn is_insert_index(accs: Seq<Account>, c: i32, p: int) -> bool {
    &&& 0 <= p <= accs.len()
    &&& forall|i: int| 0 <= i < p ==> (#[trigger] accs[i]).client_id < c
    &&& forall|i: int| p <= i < accs.len() ==> (#[trigger] accs[i]).client_id > c
}

/// The position where an account for client `c` belongs.
pub open spec fn insert_index(accs: Seq<Account>, c: i32) -> int {
    choose|p: int| is_insert_index(accs, c, p)
}

/// The account list with `acc` stored under its client id: replaced in
/// place where the client already has an account, inserted at its sorted
/// position where it has none.
pub open spec fn put_account(accs: Seq<Account>, acc: Account) -> Seq<Account> {
    if has_account(accs, acc.client_id) {
        accs.update(account_index(accs, acc.client_id), acc)
    } else {
        accs.insert(insert_index(accs, acc.client_id), acc)
    }
}

/// Some record carries transaction id `t`.
pub open spec fn has_record(recs: Seq<TransactionRecord>, t: i32) -> bool {
    exists|i: int| 0 <= i < recs.len() && (#[trigger] recs[i]).transaction_id == t
}

/// The position of the record with transaction id `t`, where one exists.
pub open spec fn record_index(recs: Seq<TransactionRecord>, t: i32) -> int {
    choose|i: int| 0 <= i < recs.len() && (#[trigger] recs[i]).transaction_id == t
}

/// No transaction id is recorded twice.
pub open spec fn records_unique(recs: Seq<TransactionRecord>) -> bool {
    forall|i: int, j: int|
        0 <= i < j < recs.len() ==> (#[trigger] recs[i]).transaction_id != (
        #[trigger] recs[j]).transaction_id
}

/// The ledger's invariant: accounts sorted (hence one per client) and
/// balanced, recorded ids unique, and every record carrying a positive
/// amount for a client that has an account.
pub open spec fn wf_model(v: LedgerModel) -> bool {
    &&& accounts_sorted(v.accounts)
    &&& forall|i: int| 0 <= i < v.accounts.len() ==> balanced(#[trigger] v.accounts[i])
    &&& records_unique(v.records)
    &&& forall|i: int|
        0 <= i < v.records.len() ==> (#[trigger] v.records[i]).amount > 0 && has_account(
            v.accounts,
            v.records[i].client_id,
        )
}

/// `acc` after a deposit of `a`.
pub open spec fn with_deposit(acc: Account, a: u64) -> Account {
    Account { available: (acc.available + a) as u64, total: (acc.total + a) as u64, ..acc }
}

/// `acc` after a withdrawal of `a`.
pub open spec fn with_withdrawal(acc: Account, a: u64) -> Account {
    Account { available: (acc.available - a) as u64, total: (acc.total - a) as u64, ..acc }
}

/// `acc` with `a` moved from available to held by a dispute.
pub open spec fn with_hold(acc: Account, a: u64) -> Account {
    Account { available: (acc.available - a) as u64, held: (acc.held + a) as u64, ..acc }
}

/// `acc` with `a` moved back from held to available by a resolve.
pub open spec fn with_release(acc: Account, a: u64) -> Account {
    Account { available: (acc.available + a) as u64, held: (acc.held - a) as u64, ..acc }
}

/// `acc` with `a` removed from held and total by a chargeback, locked for
/// good.
pub open spec fn with_chargeback(acc: Account, a: u64) -> Account {
    Account { held: (acc.held - a) as u64, total: (acc.total - a) as u64, locked: true, ..acc }
}

/// The history entry a successful deposit or withdrawal leaves behind.
pub open spec fn new_record(tx: Transaction, a: u64) -> TransactionRecord {
    TransactionRecord {
        transaction_id: tx.transaction_id,
        client_id: tx.client_id,
        amount: a,
        disputed: false,
    }
}

/// A record with its dispute flag set as given.
pub open spec fn with_disputed(rec: TransactionRecord, disputed: bool) -> TransactionRecord {
    TransactionRecord { disputed, ..rec }
}

/// What a deposit does: reject a missing or zero amount, a reused
/// transaction id, a locked account, or an amount that would overflow the
/// balance; otherwise add the amount to available and total and record the
/// transaction.
pub open spec fn step_deposit(v: LedgerModel, tx: Transaction) -> (LedgerModel, Result<
    (),
    LedgerError,
>) {
    if tx.amount is None {
        (v, Err(LedgerError::MalformedAmount))
    } else {
        let a = tx.amount->0;
        if a == 0 {
            (v, Err(LedgerError::NonPositiveAmount))
        } else if has_record(v.records, tx.transaction_id) {
            (v, Err(LedgerError::DuplicateTransaction))
        } else if is_locked(v.accounts, tx.client_id) {
            (v, Err(LedgerError::AccountLocked))
        } else {
            let acc = account_or_default(v.accounts, tx.client_id);
            if acc.total + a > u64::MAX {
                (v, Err(LedgerError::BalanceOverflow))
            } else {
                (
                    LedgerModel {
                        accounts: put_account(v.accounts, with_deposit(acc, a)),
                        records: v.records.push(new_record(tx, a)),
                    },
                    Ok(()),
                )
            }
        }
    }
}

/// What a withdrawal does: reject as a deposit does, and reject an amount
/// beyond the available funds; otherwise take the amount from available
/// and total and record the transaction.
pub open spec fn step_withdrawal(v: LedgerModel, tx: Transaction) -> (LedgerModel, Result<
    (),
    LedgerError,
>) {
    if tx.amount is None {
        (v, Err(LedgerError::MalformedAmount))
    } else {
        let a = tx.amount->0;
        if a == 0 {
            (v, Err(LedgerError::NonPositiveAmount))
        } else if has_record(v.records, tx.transaction_id) {
            (v, Err(LedgerError::DuplicateTransaction))
        } else if is_locked(v.accounts, tx.client_id) {
            (v, Err(LedgerError::AccountLocked))
        } else {
            let acc = account_or_default(v.accounts, tx.client_id);
            if acc.available < a {
                (v, Err(LedgerError::InsufficientFunds))
            } else {
                (
                    LedgerModel {
                        accounts: put_account(v.accounts, with_withdrawal(acc, a)),
                        records: v.records.push(new_record(tx, a)),
                    },
                    Ok(()),
                )
            }
        }
    }
}

/// What a dispute does: reject a stray amount, an unknown transaction id,
/// a record of another client, a record already under dispute, or a hold
/// beyond the available funds; otherwise move the recorded amount from
/// available to held and mark the record disputed.
pub open spec fn step_dispute(v: LedgerModel, tx: Transaction) -> (LedgerModel, Result<
    (),
    LedgerError,
>) {
    if tx.amount is Some {
        (v, Err(LedgerError::MalformedAmount))
    } else if !has_record(v.records, tx.transaction_id) {
        (v, Err(LedgerError::UnknownTransaction))
    } else {
        let ri = record_index(v.records, tx.transaction_id);
        let rec = v.records[ri];
        if rec.client_id != tx.client_id {
            (v, Err(LedgerError::ClientMismatch))
        } else if rec.disputed {
            (v, Err(LedgerError::AlreadyDisputed))
        } else {
            let acc = account_or_default(v.accounts, tx.client_id);
            if acc.available < rec.amount {
                (v, Err(LedgerError::InsufficientFunds))
            } else {
                (
                    LedgerModel {
                        accounts: put_account(v.accounts, with_hold(acc, rec.amount)),
                        records: v.records.update(ri, with_disputed(rec, true)),
                    },
                    Ok(()),
                )
            }
        }
    }
}

/// What a resolve does: reject a stray amount, a record of another client,
/// or any reference without an open covered dispute; otherwise move the
/// recorded amount back from held to available and close the dispute.
pub open spec fn step_resolve(v: LedgerModel, tx: Transaction) -> (LedgerModel, Result<
    (),
    LedgerError,
>) {
    if tx.amount is Some {
        (v, Err(LedgerError::MalformedAmount))
    } else if !has_record(v.records, tx.transaction_id) {
        (v, Err(LedgerError::NoOpenDispute))
    } else {
        let ri = record_index(v.records, tx.transaction_id);
        let rec = v.records[ri];
        if rec.client_id != tx.client_id {
            (v, Err(LedgerError::ClientMismatch))
        } else if !rec.disputed {
            (v, Err(LedgerError::NoOpenDispute))
        } else {
            let acc = account_or_default(v.accounts, tx.client_id);
            if acc.held < rec.amount {
                (v, Err(LedgerError::NoOpenDispute))
            } else {
                (
                    LedgerModel {
                        accounts: put_account(v.accounts, with_release(acc, rec.amount)),
                        records: v.records.update(ri, with_disputed(rec, false)),
                    },
                    Ok(()),
                )
            }
        }
    }
}

/// What a chargeback does: reject as a resolve does; otherwise remove the
/// recorded amount from held and total, close the dispute, and lock the
/// account for good.
pub open spec fn step_chargeback(v: LedgerModel, tx: Transaction) -> (LedgerModel, Result<
    (),
    LedgerError,
>) {
    if tx.amount is Some {
        (v, Err(LedgerError::MalformedAmount))
    } else if !has_record(v.records, tx.transaction_id) {
        (v, Err(LedgerError::NoOpenDispute))
    } else {
        let ri = record_index(v.records, tx.transaction_id);
        let rec = v.records[ri];
        if rec.client_id != tx.client_id {
            (v, Err(LedgerError::ClientMismatch))
        } else if !rec.disputed {
            (v, Err(LedgerError::NoOpenDispute))
        } else {
            let acc = account_or_default(v.accounts, tx.client_id);
            if acc.held < rec.amount {
                (v, Err(LedgerError::NoOpenDispute))
            } else {
                (
                    LedgerModel {
                        accounts: put_account(v.accounts, with_chargeback(acc, rec.amount)),
                        records: v.records.update(ri, with_disputed(rec, false)),
                    },
                    Ok(()),
                )
            }
        }
    }
}

/// The whole state machine: what one incoming transaction does to the
/// ledger, and what `apply` answers.
pub open spec fn step(v: LedgerModel, tx: Transaction) -> (LedgerModel, Result<(), LedgerError>) {
    match tx.transaction_type {
        TransactionType::Deposit => step_deposit(v, tx),
        TransactionType::Withdrawal => step_withdrawal(v, tx),
        TransactionType::Dispute => step_dispute(v, tx),
        TransactionType::Resolve => step_resolve(v, tx),
        TransactionType::Chargeback => step_chargeback(v, tx),
    }
}

/// A hit in a sorted account list is the account the lookup spec points at.
pub proof fn lemma_account_index_is(accs: Seq<Account>, c: i32, i: int)
    requires
        accounts_sorted(accs),
        0 <= i < accs.len(),
        accs[i].client_id == c,
    ensures
        has_account(accs, c),
        account_index(accs, c) == i,
        account_or_default(accs, c) == accs[i],
{
    assert(has_account(accs, c));
    let j = account_index(accs, c);
    assert(0 <= j < accs.len() && accs[j].client_id == c);
    if i < j {
        assert(accs[i].client_id < accs[j].client_id);
    }
    if j < i {
        assert(accs[j].client_id < accs[i].client_id);
    }
}

/// A hit in a duplicate-free record list is the record the lookup spec
/// points at.
pub proof fn lemma_record_index_is(recs: Seq<TransactionRecord>, t: i32, i: int)
    requires
        records_unique(recs),
        0 <= i < recs.len(),
        recs[i].transaction_id == t,
    ensures
        has_record(recs, t),
        record_index(recs, t) == i,
{
    assert(has_record(recs, t));
    let j = record_index(recs, t);
    assert(0 <= j < recs.len() && recs[j].transaction_id == t);
    if i < j {
        assert(recs[i].transaction_id != recs[j].transaction_id);
    }
    if j < i {
        assert(recs[j].transaction_id != recs[i].transaction_id);
    }
}

/// The sorted position of a client is unique.
proof fn lemma_insert_index_is(accs: Seq<Account>, c: i32, p: int)
    requires
        is_insert_index(accs, c, p),
    ensures
        insert_index(accs, c) == p,
{
    let q = insert_index(accs, c);
    assert(is_insert_index(accs, c, q));
    if q < p {
        assert(accs[q].client_id < c);
        assert(accs[q].client_id > c);
    }
    if p < q {
        assert(accs[p].client_id > c);
        assert(accs[p].client_id < c);
    }
}

/// In a sorted list with no account for `c`, a sorted position for `c`
/// exists, so the lookup spec points at a genuine one.
proof fn lemma_exists_insert_index(accs: Seq<Account>, c: i32)
    requires
        accounts_sorted(accs),
        !has_account(accs, c),
    ensures
        is_insert_index(accs, c, insert_index(accs, c)),
    decreases accs.len(),
{
    if accs.len() == 0 {
        assert(is_insert_index(accs, c, 0));
    } else if accs[0].client_id > c {
        assert forall|i: int| 0 <= i < accs.len() implies (#[trigger] accs[i]).client_id > c by {
            if i > 0 {
                assert(accs[0].client_id < accs[i].client_id);
            }
        }
        assert(is_insert_index(accs, c, 0));
    } else {
        assert(accs[0].client_id != c);
        let t = accs.drop_first();
        assert forall|i: int, j: int| 0 <= i < j < t.len() implies (#[trigger] t[i]).client_id < (
        #[trigger] t[j]).client_id by {
            assert(t[i] == accs[i + 1]);
            assert(t[j] == accs[j + 1]);
        }
        assert(!has_account(t, c)) by {
            if has_account(t, c) {
                let w = choose|i: int| 0 <= i < t.len() && (#[trigger] t[i]).client_id == c;
                assert(accs[w + 1] == t[w]);
                assert(has_account(accs, c));
            }
        }
        lemma_exists_insert_index(t, c);
        let q = insert_index(t, c);
        assert(is_insert_index(t, c, q));
        assert forall|i: int| 0 <= i < q + 1 implies (#[trigger] accs[i]).client_id < c by {
            if i > 0 {
                assert(t[i - 1] == accs[i]);
            }
        }
        assert forall|i: int| q + 1 <= i < accs.len() implies (#[trigger] accs[i]).client_id
            > c by {
            assert(t[i - 1] == accs[i]);
        }
        assert(is_insert_index(accs, c, q + 1));
    }
}

/// How storing one account changes lookups: the list stays sorted, the
/// stored client maps to the new account, every other client's view is
/// untouched, and nothing but the stored account is new.
pub proof fn lemma_put_account_lookup(accs: Seq<Account>, acc: Account)
    requires
        accounts_sorted(accs),
    ensures
        accounts_sorted(put_account(accs, acc)),
        has_account(put_account(accs, acc), acc.client_id),
        account_or_default(put_account(accs, acc), acc.client_id) == acc,
        forall|c2: i32|
            c2 != acc.client_id ==> #[trigger] has_account(put_account(accs, acc), c2)
                == has_account(accs, c2),
        forall|c2: i32|
            c2 != acc.client_id ==> #[trigger] account_or_default(put_account(accs, acc), c2)
                == account_or_default(accs, c2),
        forall|k: int|
            0 <= k < put_account(accs, acc).len() ==> #[trigger] put_account(accs, acc)[k] == acc
                || accs.contains(put_account(accs, acc)[k]),
{
    let put = put_account(accs, acc);
    if has_account(accs, acc.client_id) {
        let i = account_index(accs, acc.client_id);
        assert(0 <= i < accs.len() && accs[i].client_id == acc.client_id);
        assert(put == accs.update(i, acc));
        assert forall|x: int, y: int| 0 <= x < y < put.len() implies (#[trigger] put[x]).client_id
            < (#[trigger] put[y]).client_id by {
            assert(accs[x].client_id < accs[y].client_id);
        }
        lemma_account_index_is(put, acc.client_id, i);
        assert forall|c2: i32| c2 != acc.client_id implies #[trigger] has_account(put, c2)
            == has_account(accs, c2) && account_or_default(put, c2) == account_or_default(
            accs,
            c2,
        ) by {
            if has_account(accs, c2) {
                let w = account_index(accs, c2);
                assert(0 <= w < accs.len() && accs[w].client_id == c2);
                lemma_account_index_is(accs, c2, w);
                assert(put[w] == accs[w]);
                lemma_account_index_is(put, c2, w);
            } else {
                if has_account(put, c2) {
                    let w = choose|k: int| 0 <= k < put.len() && (#[trigger] put[k]).client_id
                        == c2;
                    assert(put[w] == if w == i {
                        acc
                    } else {
                        accs[w]
                    });
                    assert(accs[w].client_id == c2);
                    assert(has_account(accs, c2));
                }
            }
        }
        assert forall|k: int| 0 <= k < put.len() implies #[trigger] put[k] == acc || accs.contains(
            put[k],
        ) by {
            if k != i {
                assert(put[k] == accs[k]);
                assert(accs.contains(accs[k]));
            }
        }
    } else {
        lemma_exists_insert_index(accs, acc.client_id);
        let p = insert_index(accs, acc.client_id);
        assert(is_insert_index(accs, acc.client_id, p));
        accs.insert_ensures(p, acc);
        assert(put == accs.insert(p, acc));
        assert forall|x: int| 0 <= x < put.len() implies #[trigger] put[x] == (if x < p {
            accs[x]
        } else if x == p {
            acc
        } else {
            accs[x - 1]
        }) by {
            if x > p {
                assert(put[(x - 1) + 1] == accs[x - 1]);
            }
        }
        assert forall|x: int, y: int| 0 <= x < y < put.len() implies (#[trigger] put[x]).client_id
            < (#[trigger] put[y]).client_id by {
            if x < p && y < p {
                assert(accs[x].client_id < accs[y].client_id);
            } else if x < p && y == p {
                assert(accs[x].client_id < acc.client_id);
            } else if x < p && y > p {
                assert(accs[x].client_id < acc.client_id);
                assert(accs[y - 1].client_id > acc.client_id);
            } else if x == p {
                assert(accs[y - 1].client_id > acc.client_id);
            } else {
                assert(accs[x - 1].client_id < accs[y - 1].client_id);
            }
        }
        lemma_account_index_is(put, acc.client_id, p);
        assert forall|c2: i32| c2 != acc.client_id implies #[trigger] has_account(put, c2)
            == has_account(accs, c2) && account_or_default(put, c2) == account_or_default(
            accs,
            c2,
        ) by {
            if has_account(accs, c2) {
                let w = account_index(accs, c2);
                assert(0 <= w < accs.len() && accs[w].client_id == c2);
                lemma_account_index_is(accs, c2, w);
                let w2: int = if w < p {
                    w
                } else {
                    w + 1
                };
                assert(put[w2] == accs[w]);
                lemma_account_index_is(put, c2, w2);
            } else {
                if has_account(put, c2) {
                    let w = choose|k: int| 0 <= k < put.len() && (#[trigger] put[k]).client_id
                        == c2;
                    if w < p {
                        assert(accs[w].client_id == c2);
                        assert(has_account(accs, c2));
                    } else if w > p {
                        assert(accs[w - 1].client_id == c2);
                        assert(has_account(accs, c2));
                    }
                }
            }
        }
        assert forall|k: int| 0 <= k < put.len() implies #[trigger] put[k] == acc || accs.contains(
            put[k],
        ) by {
            if k < p {
                assert(put[k] == accs[k]);
                assert(accs.contains(accs[k]));
            } else if k > p {
                assert(put[k] == accs[k - 1]);
                assert(accs.contains(accs[k - 1]));
            }
        }
    }
}

/// Storing a balanced account keeps the account part of the invariant.
pub proof fn lemma_put_account_wf(accs: Seq<Account>, acc: Account)
    requires
        accounts_sorted(accs),
        forall|i: int| 0 <= i < accs.len() ==> balanced(#[trigger] accs[i]),
        balanced(acc),
    ensures
        accounts_sorted(put_account(accs, acc)),
        forall|i: int|
            0 <= i < put_account(accs, acc).len() ==> balanced(#[trigger] put_account(accs, acc)[i]),
{
    lemma_put_account_lookup(accs, acc);
    assert forall|i: int| 0 <= i < put_account(accs, acc).len() implies balanced(
        #[trigger] put_account(accs, acc)[i],
    ) by {
        let x = put_account(accs, acc)[i];
        if x != acc {
            assert(accs.contains(x));
            let w = choose|k: int| 0 <= k < accs.len() && accs[k] == x;
            assert(balanced(accs[w]));
        }
    }
}

/// Every record still points at an existing account after an account is
/// stored.
pub proof fn lemma_records_clients_after_put(
    accs: Seq<Account>,
    acc: Account,
    recs: Seq<TransactionRecord>,
)
    requires
        accounts_sorted(accs),
        forall|i: int|
            0 <= i < recs.len() ==> (#[trigger] recs[i]).amount > 0 && has_account(
                accs,
                recs[i].client_id,
            ),
    ensures
        forall|i: int|
            0 <= i < recs.len() ==> (#[trigger] recs[i]).amount > 0 && has_account(
                put_account(accs, acc),
                recs[i].client_id,
            ),
{
    lemma_put_account_lookup(accs, acc);
    assert forall|i: int| 0 <= i < recs.len() implies (#[trigger] recs[i]).amount > 0
        && has_account(put_account(accs, acc), recs[i].client_id) by {
        if recs[i].client_id != acc.client_id {
            assert(has_account(put_account(accs, acc), recs[i].client_id) == has_account(
                accs,
                recs[i].client_id,
            ));
        }
    }
}

/// Appending a record with an unseen transaction id keeps ids unique.
pub proof fn lemma_records_unique_push(recs: Seq<TransactionRecord>, rec: TransactionRecord)
    requires
        records_unique(recs),
        !has_record(recs, rec.transaction_id),
    ensures
        records_unique(recs.push(rec)),
{
    let r2 = recs.push(rec);
    assert forall|i: int, j: int| 0 <= i < j < r2.len() implies (#[trigger] r2[i]).transaction_id
        != (#[trigger] r2[j]).transaction_id by {
        if j < recs.len() {
            assert(r2[i] == recs[i]);
            assert(r2[j] == recs[j]);
        } else {
            assert(r2[j] == rec);
            assert(r2[i] == recs[i]);
            if recs[i].transaction_id == rec.transaction_id {
                assert(has_record(recs, rec.transaction_id));
            }
        }
    }
}

/// Rewriting a record without changing its transaction id keeps ids
/// unique.
pub proof fn lemma_records_unique_update(
    recs: Seq<TransactionRecord>,
    ri: int,
    rec: TransactionRecord,
)
    requires
        records_unique(recs),
        0 <= ri < recs.len(),
        rec.transaction_id == recs[ri].transaction_id,
    ensures
        records_unique(recs.update(ri, rec)),
{
    let r2 = recs.update(ri, rec);
    assert forall|i: int, j: int| 0 <= i < j < r2.len() implies (#[trigger] r2[i]).transaction_id
        != (#[trigger] r2[j]).transaction_id by {
        assert(recs[i].transaction_id != recs[j].transaction_id);
    }
}

/// Finds the position of client `c`'s account by linear search.
fn find_account(accounts: &Vec<Account>, c: i32) -> (r: Option<usize>)
    requires
        accounts_sorted(accounts@),
    ensures
        match r {
            Some(i) => i < accounts.len() && accounts@[i as int].client_id == c && has_account(
                accounts@,
                c,
            ) && account_index(accounts@, c) == i as int,
            None => !has_account(accounts@, c),
        },
{
    let n = accounts.len();
    let mut k: usize = 0;
    while k < n
        invariant
            k <= n == accounts.len(),
            accounts_sorted(accounts@),
            forall|j: int| 0 <= j < k ==> (#[trigger] accounts@[j]).client_id != c,
        decreases n - k,
    {
        if accounts[k].client_id == c {
            proof {
                lemma_account_index_is(accounts@, c, k as int);
            }
            return Some(k);
        }
        k += 1;
    }
    proof {
        if has_account(accounts@, c) {
            let w = account_index(accounts@, c);
            assert(0 <= w < accounts@.len() && accounts@[w].client_id == c);
        }
    }
    None
}

/// Finds the position of the record with transaction id `t`.
fn find_record(records: &Vec<TransactionRecord>, t: i32) -> (r: Option<usize>)
    requires
        records_unique(records@),
    ensures
        match r {
            Some(i) => i < records.len() && records@[i as int].transaction_id == t && has_record(
                records@,
                t,
            ) && record_index(records@, t) == i as int,
            None => !has_record(records@, t),
        },
{
    let n = records.len();
    let mut k: usize = 0;
    while k < n
        invariant
            k <= n == records.len(),
            records_unique(records@),
            forall|j: int| 0 <= j < k ==> (#[trigger] records@[j]).transaction_id != t,
        decreases n - k,
    {
        if records[k].transaction_id == t {
            proof {
                lemma_record_index_is(records@, t, k as int);
            }
            return Some(k);
        }
        k += 1;
    }
    proof {
        if has_record(records@, t) {
            let w = record_index(records@, t);
            assert(0 <= w < records@.len() && records@[w].transaction_id == t);
        }
    }
    None
}

/// Finds the sorted position for a new account of client `c`.
fn find_insert_pos(accounts: &Vec<Account>, c: i32) -> (p: usize)
    requires
        accounts_sorted(accounts@),
        !has_account(accounts@, c),
    ensures
        p <= accounts.len(),
        is_insert_index(accounts@, c, p as int),
        insert_index(accounts@, c) == p as int,
{
    let n = accounts.len();
    let mut k: usize = 0;
    while k < n && accounts[k].client_id < c
        invariant
            k <= n == accounts.len(),
            accounts_sorted(accounts@),
            forall|j: int| 0 <= j < k ==> (#[trigger] accounts@[j]).client_id < c,
        decreases n - k,
    {
        k += 1;
    }
    proof {
        assert forall|j: int| k <= j < accounts@.len() implies (#[trigger] accounts@[j]).client_id
            > c by {
            assert(accounts@[k as int].client_id >= c);
            assert(accounts@[k as int].client_id != c);
            if j > k {
                assert(accounts@[k as int].client_id < accounts@[j].client_id);
            }
        }
        assert(is_insert_index(accounts@, c, k as int));
        lemma_insert_index_is(accounts@, c, k as int);
    }
    k
}

/// The ledger: the accounts, sorted by client id, and the history of
/// applied deposits and withdrawals. All mutation goes through `apply`.
pub struct Ledger {
    accounts: Vec<Account>,
    records: Vec<TransactionRecord>,
}

impl View for Ledger {
    type V = LedgerModel;

    closed spec fn view(&self) -> LedgerModel {
        LedgerModel { accounts: self.accounts@, records: self.records@ }
    }
}

impl Ledger {
    /// The ledger's invariant; `apply` keeps it, so at every point in a
    /// run every account satisfies `total == available + held` with all
    /// balances non-negative.
    pub open spec fn wf(self) -> bool {
        wf_model(self@)
    }

    /// A fresh ledger with no accounts and no history.
    pub fn new() -> (l: Ledger)
        ensures
            l@ == empty_model(),
            l.wf(),
    {
        Ledger { accounts: Vec::new(), records: Vec::new() }
    }

    /// The accounts as they stand, in ascending client-id order, for a
    /// driver to hand to its store at the end of a run.
    pub fn accounts(&self) -> (r: Vec<Account>)
        ensures
            r@ == self@.accounts,
    {
        let n = self.accounts.len();
        let mut r: Vec<Account> = Vec::new();
        let mut k: usize = 0;
        while k < n
            invariant
                k <= n == self.accounts.len(),
                r@ =~= self.accounts@.subrange(0, k as int),
            decreases n - k,
        {
            r.push(self.accounts[k]);
            k += 1;
        }
        proof {
            assert(r@ =~= self@.accounts);
        }
        r
    }

    /// Client `c`'s account, where one exists.
    pub fn find_account_by_client_id(&self, client: i32) -> (r: Option<Account>)
        requires
            self.wf(),
        ensures
            r == (if has_account(self@.accounts, client) {
                Some(account_or_default(self@.accounts, client))
            } else {
                Option::<Account>::None
            }),
    {
        match find_account(&self.accounts, client) {
            Some(i) => Some(self.accounts[i]),
            None => None,
        }
    }

    /// Advances the state machine by one transaction. The new state and
    /// the answer are exactly what `step` says; a rejected transaction
    /// leaves the ledger untouched, and the invariant holds afterwards.
    pub fn apply(&mut self, tx: &Transaction) -> (r: Result<(), LedgerError>)
        requires
            old(self).wf(),
        ensures
            final(self).wf(),
            final(self)@ == step(old(self)@, *tx).0,
            r == step(old(self)@, *tx).1,
    {
        match tx.transaction_type {
            TransactionType::Deposit => self.apply_deposit(tx),
            TransactionType::Withdrawal => self.apply_withdrawal(tx),
            TransactionType::Dispute => self.apply_dispute(tx),
            TransactionType::Resolve => self.apply_resolve(tx),
            TransactionType::Chargeback => self.apply_chargeback(tx),
        }
    }

    fn apply_deposit(&mut self, tx: &Transaction) -> (r: Result<(), LedgerError>)
        requires
            old(self).wf(),
            tx.transaction_type == TransactionType::Deposit,
        ensures
            final(self).wf(),
            final(self)@ == step_deposit(old(self)@, *tx).0,
            r == step_deposit(old(self)@, *tx).1,
    {
        let a: u64 = match tx.amount {
            Some(a) => a,
            None => {
                return Err(LedgerError::MalformedAmount);
            },
        };
        if a == 0 {
            return Err(LedgerError::NonPositiveAmount);
        }
        match find_record(&self.records, tx.transaction_id) {
            Some(_) => {
                return Err(LedgerError::DuplicateTransaction);
            },
            None => {},
        }
        let rec = TransactionRecord {
            transaction_id: tx.transaction_id,
            client_id: tx.client_id,
            amount: a,
            disputed: false,
        };
        match find_account(&self.accounts, tx.client_id) {
            Some(i) => {
                let acc = self.accounts[i];
                proof {
                    assert(account_or_default(old(self)@.accounts, tx.client_id) == acc);
                    assert(balanced(old(self)@.accounts[i as int]));
                }
                if acc.locked {
                    return Err(LedgerError::AccountLocked);
                }
                if acc.total > u64::MAX - a {
                    return Err(LedgerError::BalanceOverflow);
                }
                let newacc = Account {
                    client_id: acc.client_id,
                    available: acc.available + a,
                    total: acc.total + a,
                    held: acc.held,
                    locked: acc.locked,
                };
                proof {
                    assert(newacc == with_deposit(acc, a));
                    lemma_put_account_wf(old(self)@.accounts, newacc);
                    lemma_records_clients_after_put(old(self)@.accounts, newacc, old(self)@.records);
                    lemma_records_unique_push(old(self)@.records, rec);
                    lemma_put_account_lookup(old(self)@.accounts, newacc);
                    let accs2 = put_account(old(self)@.accounts, newacc);
                    let recs2 = old(self)@.records.push(rec);
                    assert forall|k: int| 0 <= k < recs2.len() implies (
                    #[trigger] recs2[k]).amount > 0 && has_account(accs2, recs2[k].client_id) by {
                        if k < old(self)@.records.len() {
                            assert(recs2[k] == old(self)@.records[k]);
                            assert(old(self)@.records[k].amount > 0);
                        } else {
                            assert(recs2[k] == rec);
                            assert(has_account(accs2, newacc.client_id));
                        }
                    }
                    assert(put_account(old(self)@.accounts, newacc) == old(
                        self,
                    )@.accounts.update(i as int, newacc));
                }
                self.accounts[i] = newacc;
                self.records.push(rec);
                Ok(())
            },
            None => {
                proof {
                    assert(account_or_default(old(self)@.accounts, tx.client_id)
                        == default_account(tx.client_id));
                }
                let p = find_insert_pos(&self.accounts, tx.client_id);
                let newacc = Account {
                    client_id: tx.client_id,
                    available: a,
                    total: a,
                    held: 0,
                    locked: false,
                };
                proof {
                    assert(newacc == with_deposit(default_account(tx.client_id), a));
                    lemma_put_account_wf(old(self)@.accounts, newacc);
                    lemma_records_clients_after_put(old(self)@.accounts, newacc, old(self)@.records);
                    lemma_records_unique_push(old(self)@.records, rec);
                    lemma_put_account_lookup(old(self)@.accounts, newacc);
                    let accs2 = put_account(old(self)@.accounts, newacc);
                    let recs2 = old(self)@.records.push(rec);
                    assert forall|k: int| 0 <= k < recs2.len() implies (
                    #[trigger] recs2[k]).amount > 0 && has_account(accs2, recs2[k].client_id) by {
                        if k < old(self)@.records.len() {
                            assert(recs2[k] == old(self)@.records[k]);
                            assert(old(self)@.records[k].amount > 0);
                        } else {
                            assert(recs2[k] == rec);
                            assert(has_account(accs2, newacc.client_id));
                        }
                    }
                    assert(put_account(old(self)@.accounts, newacc) == old(
                        self,
                    )@.accounts.insert(p as int, newacc));
                }
                self.accounts.insert(p, newacc);
                self.records.push(rec);
                Ok(())
            },
        }
    }

    fn apply_withdrawal(&mut self, tx: &Transaction) -> (r: Result<(), LedgerError>)
        requires
            old(self).wf(),
            tx.transaction_type == TransactionType::Withdrawal,
        ensures
            final(self).wf(),
            final(self)@ == step_withdrawal(old(self)@, *tx).0,
            r == step_withdrawal(old(self)@, *tx).1,
    {
        let a: u64 = match tx.amount {
            Some(a) => a,
            None => {
                return Err(LedgerError::MalformedAmount);
            },
        };
        if a == 0 {
            return Err(LedgerError::NonPositiveAmount);
        }
        match find_record(&self.records, tx.transaction_id) {
            Some(_) => {
                return Err(LedgerError::DuplicateTransaction);
            },
            None => {},
        }
        match find_account(&self.accounts, tx.client_id) {
            None => {
                proof {
                    assert(account_or_default(old(self)@.accounts, tx.client_id)
                        == default_account(tx.client_id));
                }
                Err(LedgerError::InsufficientFunds)
            },
            Some(i) => {
                let acc = self.accounts[i];
                proof {
                    assert(account_or_default(old(self)@.accounts, tx.client_id) == acc);
                    assert(balanced(old(self)@.accounts[i as int]));
                }
                if acc.locked {
                    return Err(LedgerError::AccountLocked);
                }
                if acc.available < a {
                    return Err(LedgerError::InsufficientFunds);
                }
                let rec = TransactionRecord {
                    transaction_id: tx.transaction_id,
                    client_id: tx.client_id,
                    amount: a,
                    disputed: false,
                };
                let newacc = Account {
                    client_id: acc.client_id,
                    available: acc.available - a,
                    total: acc.total - a,
                    held: acc.held,
                    locked: acc.locked,
                };
                proof {
                    assert(newacc == with_withdrawal(acc, a));
                    lemma_put_account_wf(old(self)@.accounts, newacc);
                    lemma_records_clients_after_put(old(self)@.accounts, newacc, old(self)@.records);
                    lemma_records_unique_push(old(self)@.records, rec);
                    lemma_put_account_lookup(old(self)@.accounts, newacc);
                    let accs2 = put_account(old(self)@.accounts, newacc);
                    let recs2 = old(self)@.records.push(rec);
                    assert forall|k: int| 0 <= k < recs2.len() implies (
                    #[trigger] recs2[k]).amount > 0 && has_account(accs2, recs2[k].client_id) by {
                        if k < old(self)@.records.len() {
                            assert(recs2[k] == old(self)@.records[k]);
                            assert(old(self)@.records[k].amount > 0);
                        } else {
                            assert(recs2[k] == rec);
                            assert(has_account(accs2, newacc.client_id));
                        }
                    }
                    assert(put_account(old(self)@.accounts, newacc) == old(
                        self,
                    )@.accounts.update(i as int, newacc));
                }
                self.accounts[i] = newacc;
                self.records.push(rec);
                Ok(())
            },
        }
    }

    fn apply_dispute(&mut self, tx: &Transaction) -> (r: Result<(), LedgerError>)
        requires
            old(self).wf(),
            tx.transaction_type == TransactionType::Dispute,
        ensures
            final(self).wf(),
            final(self)@ == step_dispute(old(self)@, *tx).0,
            r == step_dispute(old(self)@, *tx).1,
    {
        if tx.amount.is_some() {
            return Err(LedgerError::MalformedAmount);
        }
        let ri = match find_record(&self.records, tx.transaction_id) {
            Some(ri) => ri,
            None => {
                return Err(LedgerError::UnknownTransaction);
            },
        };
        let rec = self.records[ri];
        if rec.client_id != tx.client_id {
            return Err(LedgerError::ClientMismatch);
        }
        if rec.disputed {
            return Err(LedgerError::AlreadyDisputed);
        }
        proof {
            assert(old(self)@.records[ri as int].amount > 0);
            assert(has_account(old(self)@.accounts, rec.client_id));
        }
        match find_account(&self.accounts, tx.client_id) {
            None => {
                proof {
                    assert(false);
                }
                Err(LedgerError::InsufficientFunds)
            },
            Some(ai) => {
                let acc = self.accounts[ai];
                proof {
                    assert(account_or_default(old(self)@.accounts, tx.client_id) == acc);
                    assert(balanced(old(self)@.accounts[ai as int]));
                }
                if acc.available < rec.amount {
                    return Err(LedgerError::InsufficientFunds);
                }
                let newacc = Account {
                    client_id: acc.client_id,
                    available: acc.available - rec.amount,
                    total: acc.total,
                    held: acc.held + rec.amount,
                    locked: acc.locked,
                };
                let newrec = TransactionRecord {
                    transaction_id: rec.transaction_id,
                    client_id: rec.client_id,
                    amount: rec.amount,
                    disputed: true,
                };
                proof {
                    assert(newacc == with_hold(acc, rec.amount));
                    assert(newrec == with_disputed(rec, true));
                    lemma_put_account_wf(old(self)@.accounts, newacc);
                    lemma_records_unique_update(old(self)@.records, ri as int, newrec);
                    let recs2 = old(self)@.records.update(ri as int, newrec);
                    assert forall|k: int| 0 <= k < recs2.len() implies (
                    #[trigger] recs2[k]).amount > 0 && has_account(
                        old(self)@.accounts,
                        recs2[k].client_id,
                    ) by {
                        assert(old(self)@.records[k].amount > 0);
                        assert(has_account(old(self)@.accounts, old(self)@.records[k].client_id));
                    }
                    lemma_records_clients_after_put(old(self)@.accounts, newacc, recs2);
                    assert(put_account(old(self)@.accounts, newacc) == old(
                        self,
                    )@.accounts.update(ai as int, newacc));
                }
                self.accounts[ai] = newacc;
                self.records[ri] = newrec;
                Ok(())
            },
        }
    }

    fn apply_resolve(&mut self, tx: &Transaction) -> (r: Result<(), LedgerError>)
        requires
            old(self).wf(),
            tx.transaction_type == TransactionType::Resolve,
        ensures
            final(self).wf(),
            final(self)@ == step_resolve(old(self)@, *tx).0,
            r == step_resolve(old(self)@, *tx).1,
    {
        if tx.amount.is_some() {
            return Err(LedgerError::MalformedAmount);
        }
        let ri = match find_record(&self.records, tx.transaction_id) {
            Some(ri) => ri,
            None => {
                return Err(LedgerError::NoOpenDispute);
            },
        };
        let rec = self.records[ri];
        if rec.client_id != tx.client_id {
            return Err(LedgerError::ClientMismatch);
        }
        if !rec.disputed {
            return Err(LedgerError::NoOpenDispute);
        }
        proof {
            assert(old(self)@.records[ri as int].amount > 0);
            assert(has_account(old(self)@.accounts, rec.client_id));
        }
        match find_account(&self.accounts, tx.client_id) {
            None => {
                proof {
                    assert(false);
                }
                Err(LedgerError::NoOpenDispute)
            },
            Some(ai) => {
                let acc = self.accounts[ai];
                proof {
                    assert(account_or_default(old(self)@.accounts, tx.client_id) == acc);
                    assert(balanced(old(self)@.accounts[ai as int]));
                }
                if acc.held < rec.amount {
                    return Err(LedgerError::NoOpenDispute);
                }
                let newacc = Account {
                    client_id: acc.client_id,
                    available: acc.available + rec.amount,
                    total: acc.total,
                    held: acc.held - rec.amount,
                    locked: acc.locked,
                };
                let newrec = TransactionRecord {
                    transaction_id: rec.transaction_id,
                    client_id: rec.client_id,
                    amount: rec.amount,
                    disputed: false,
                };
                proof {
                    assert(newacc == with_release(acc, rec.amount));
                    assert(newrec == with_disputed(rec, false));
                    lemma_put_account_wf(old(self)@.accounts, newacc);
                    lemma_records_unique_update(old(self)@.records, ri as int, newrec);
                    let recs2 = old(self)@.records.update(ri as int, newrec);
                    assert forall|k: int| 0 <= k < recs2.len() implies (
                    #[trigger] recs2[k]).amount > 0 && has_account(
                        old(self)@.accounts,
                        recs2[k].client_id,
                    ) by {
                        assert(old(self)@.records[k].amount > 0);
                        assert(has_account(old(self)@.accounts, old(self)@.records[k].client_id));
                    }
                    lemma_records_clients_after_put(old(self)@.accounts, newacc, recs2);
                    assert(put_account(old(self)@.accounts, newacc) == old(
                        self,
                    )@.accounts.update(ai as int, newacc));
                }
                self.accounts[ai] = newacc;
                self.records[ri] = newrec;
                Ok(())
            },
        }
    }

    fn apply_chargeback(&mut self, tx: &Transaction) -> (r: Result<(), LedgerError>)
        requires
            old(self).wf(),
            tx.transaction_type == TransactionType::Chargeback,
        ensures
            final(self).wf(),
            final(self)@ == step_chargeback(old(self)@, *tx).0,
            r == step_chargeback(old(self)@, *tx).1,
    {
        if tx.amount.is_some() {
            return Err(LedgerError::MalformedAmount);
        }
        let ri = match find_record(&self.records, tx.transaction_id) {
            Some(ri) => ri,
            None => {
                return Err(LedgerError::NoOpenDispute);
            },
        };
        let rec = self.records[ri];
        if rec.client_id != tx.client_id {
            return Err(LedgerError::ClientMismatch);
        }
        if !rec.disputed {
            return Err(LedgerError::NoOpenDispute);
        }
        proof {
            assert(old(self)@.records[ri as int].amount > 0);
            assert(has_account(old(self)@.accounts, rec.client_id));
        }
        match find_account(&self.accounts, tx.client_id) {
            None => {
                proof {
                    assert(false);
                }
                Err(LedgerError::NoOpenDispute)
            },
            Some(ai) => {
                let acc = self.accounts[ai];
                proof {
                    assert(account_or_default(old(self)@.accounts, tx.client_id) == acc);
                    assert(balanced(old(self)@.accounts[ai as int]));
                }
                if acc.held < rec.amount {
                    return Err(LedgerError::NoOpenDispute);
                }
                let newacc = Account {
                    client_id: acc.client_id,
                    available: acc.available,
                    total: acc.total - rec.amount,
                    held: acc.held - rec.amount,
                    locked: true,
                };
                let newrec = TransactionRecord {
                    transaction_id: rec.transaction_id,
                    client_id: rec.client_id,
                    amount: rec.amount,
                    disputed: false,
                };
                proof {
                    assert(newacc == with_chargeback(acc, rec.amount));
                    assert(newrec == with_disputed(rec, false));
                    lemma_put_account_wf(old(self)@.accounts, newacc);
                    lemma_records_unique_update(old(self)@.records, ri as int, newrec);
                    let recs2 = old(self)@.records.update(ri as int, newrec);
                    assert forall|k: int| 0 <= k < recs2.len() implies (
                    #[trigger] recs2[k]).amount > 0 && has_account(
                        old(self)@.accounts,
                        recs2[k].client_id,
                    ) by {
                        assert(old(self)@.records[k].amount > 0);
                        assert(has_account(old(self)@.accounts, old(self)@.records[k].client_id));
                    }
                    lemma_records_clients_after_put(old(self)@.accounts, newacc, recs2);
                    assert(put_account(old(self)@.accounts, newacc) == old(
                        self,
                    )@.accounts.update(ai as int, newacc));
                }
                self.accounts[ai] = newacc;
                self.records[ri] = newrec;
                Ok(())
            },
        }
    }
}

} // verus!
