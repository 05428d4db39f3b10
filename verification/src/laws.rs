//! The ledger's cross-operation laws, proved once and for all over the
//! `step` state machine: rejected duplicates change nothing, a dispute
//! followed at once by its resolve restores the state exactly, and a
//! chargeback locks its account for good.

use crate::account::{balanced, default_account};
use crate::errors::LedgerError;
use crate::ledger::{
    account_index, account_or_default, has_account, has_record, is_locked,
    lemma_account_index_is, lemma_put_account_lookup, lemma_put_account_wf,
    lemma_record_index_is, lemma_records_clients_after_put, lemma_records_unique_push,
    lemma_records_unique_update, new_record, put_account, record_index, step, with_chargeback,
    with_deposit, with_disputed, with_hold, with_release, with_withdrawal, LedgerModel, wf_model,
};
use crate::transaction::{Transaction, TransactionType};
use vstd::prelude::*;

verus! {

/// A dispute instruction for transaction `t` from client `c`.
pub open spec fn dispute_tx(c: i32, t: i32) -> Transaction {
    Transaction {
        transaction_type: TransactionType::Dispute,
        client_id: c,
        transaction_id: t,
        amount: None,
    }
}

/// A resolve instruction for transaction `t` from client `c`.
pub open spec fn resolve_tx(c: i32, t: i32) -> Transaction {
    Transaction {
        transaction_type: TransactionType::Resolve,
        client_id: c,
        transaction_id: t,
        amount: None,
    }
}

/// A chargeback instruction for transaction `t` from client `c`.
pub open spec fn chargeback_tx(c: i32, t: i32) -> Transaction {
    Transaction {
        transaction_type: TransactionType::Chargeback,
        client_id: c,
        transaction_id: t,
        amount: None,
    }
}

/// Law: a deposit or withdrawal that reuses a recorded transaction id is
/// rejected and changes no balance, whatever else is wrong with it; where
/// its amount is otherwise in order, the rejection names the duplicate.
pub proof fn lemma_duplicate_is_no_op(v: LedgerModel, tx: Transaction)
    requires
        wf_model(v),
        tx.transaction_type == TransactionType::Deposit || tx.transaction_type
            == TransactionType::Withdrawal,
        has_record(v.records, tx.transaction_id),
    ensures
        step(v, tx).0 == v,
        step(v, tx).1 is Err,
        tx.amount is Some && tx.amount->0 != 0 ==> step(v, tx).1 == Err::<(), LedgerError>(
            LedgerError::DuplicateTransaction,
        ),
{
}

/// Law: the ledger's invariant survives every transaction, so at every
/// point in a run each account satisfies `total == available + held` with
/// all balances non-negative.
pub proof fn lemma_step_preserves_wf(v: LedgerModel, tx: Transaction)
    requires
        wf_model(v),
    ensures
        wf_model(step(v, tx).0),
{
    if step(v, tx).1 is Ok {
        match tx.transaction_type {
            TransactionType::Deposit => {
                let a = tx.amount->0;
                let acc = account_or_default(v.accounts, tx.client_id);
                if has_account(v.accounts, tx.client_id) {
                    let ai = account_index(v.accounts, tx.client_id);
                    assert(0 <= ai < v.accounts.len() && v.accounts[ai].client_id
                        == tx.client_id);
                    assert(balanced(v.accounts[ai]));
                }
                let acc2 = with_deposit(acc, a);
                lemma_put_account_wf(v.accounts, acc2);
                lemma_put_account_lookup(v.accounts, acc2);
                lemma_records_unique_push(v.records, new_record(tx, a));
                lemma_records_clients_after_put(v.accounts, acc2, v.records);
                let accs2 = put_account(v.accounts, acc2);
                let recs2 = v.records.push(new_record(tx, a));
                assert forall|k: int| 0 <= k < recs2.len() implies (#[trigger] recs2[k]).amount > 0
                    && has_account(accs2, recs2[k].client_id) by {
                    if k < v.records.len() {
                        assert(recs2[k] == v.records[k]);
                        assert(v.records[k].amount > 0);
                    } else {
                        assert(recs2[k] == new_record(tx, a));
                        assert(has_account(accs2, acc2.client_id));
                    }
                }
            },
            TransactionType::Withdrawal => {
                let a = tx.amount->0;
                let acc = account_or_default(v.accounts, tx.client_id);
                if has_account(v.accounts, tx.client_id) {
                    let ai = account_index(v.accounts, tx.client_id);
                    assert(0 <= ai < v.accounts.len() && v.accounts[ai].client_id
                        == tx.client_id);
                    assert(balanced(v.accounts[ai]));
                }
                let acc2 = with_withdrawal(acc, a);
                lemma_put_account_wf(v.accounts, acc2);
                lemma_put_account_lookup(v.accounts, acc2);
                lemma_records_unique_push(v.records, new_record(tx, a));
                lemma_records_clients_after_put(v.accounts, acc2, v.records);
                let accs2 = put_account(v.accounts, acc2);
                let recs2 = v.records.push(new_record(tx, a));
                assert forall|k: int| 0 <= k < recs2.len() implies (#[trigger] recs2[k]).amount > 0
                    && has_account(accs2, recs2[k].client_id) by {
                    if k < v.records.len() {
                        assert(recs2[k] == v.records[k]);
                        assert(v.records[k].amount > 0);
                    } else {
                        assert(recs2[k] == new_record(tx, a));
                        assert(has_account(accs2, acc2.client_id));
                    }
                }
            },
            TransactionType::Dispute => {
                lemma_reference_step_preserves_wf(v, tx);
            },
            TransactionType::Resolve => {
                lemma_reference_step_preserves_wf(v, tx);
            },
            TransactionType::Chargeback => {
                lemma_reference_step_preserves_wf(v, tx);
            },
        }
    }
}

/// The invariant survives a successful dispute, resolve or chargeback: the
/// three transactions that reference a recorded one.
proof fn lemma_reference_step_preserves_wf(v: LedgerModel, tx: Transaction)
    requires
        wf_model(v),
        tx.transaction_type == TransactionType::Dispute || tx.transaction_type
            == TransactionType::Resolve || tx.transaction_type == TransactionType::Chargeback,
        step(v, tx).1 is Ok,
    ensures
        wf_model(step(v, tx).0),
{
    let ri = record_index(v.records, tx.transaction_id);
    assert(0 <= ri < v.records.len() && v.records[ri].transaction_id == tx.transaction_id);
    let rec = v.records[ri];
    assert(rec.amount > 0);
    let a = rec.amount;
    let acc = account_or_default(v.accounts, tx.client_id);
    if !has_account(v.accounts, tx.client_id) {
        assert(acc == default_account(tx.client_id));
        assert(false);
    }
    let ai = account_index(v.accounts, tx.client_id);
    assert(0 <= ai < v.accounts.len() && v.accounts[ai].client_id == tx.client_id);
    assert(balanced(v.accounts[ai]));
    let acc2 = match tx.transaction_type {
        TransactionType::Dispute => with_hold(acc, a),
        TransactionType::Resolve => with_release(acc, a),
        _ => with_chargeback(acc, a),
    };
    let rec2 = with_disputed(rec, tx.transaction_type is Dispute);
    assert(balanced(acc2));
    lemma_put_account_wf(v.accounts, acc2);
    lemma_put_account_lookup(v.accounts, acc2);
    lemma_records_unique_update(v.records, ri, rec2);
    let recs2 = v.records.update(ri, rec2);
    assert forall|k: int| 0 <= k < recs2.len() implies (#[trigger] recs2[k]).amount > 0
        && has_account(v.accounts, recs2[k].client_id) by {
        assert(v.records[k].amount > 0);
        assert(has_account(v.accounts, v.records[k].client_id));
    }
    lemma_records_clients_after_put(v.accounts, acc2, recs2);
    assert(step(v, tx).0.records == recs2);
    assert(step(v, tx).0.accounts == put_account(v.accounts, acc2));
}

/// Law: a dispute followed at once by its resolve succeeds and restores
/// the whole ledger state — every balance and every dispute flag — to
/// exactly what it was before the dispute.
pub proof fn lemma_dispute_resolve_round_trip(v: LedgerModel, c: i32, t: i32)
    requires
        wf_model(v),
        step(v, dispute_tx(c, t)).1 is Ok,
    ensures
        step(step(v, dispute_tx(c, t)).0, resolve_tx(c, t)).1 is Ok,
        step(step(v, dispute_tx(c, t)).0, resolve_tx(c, t)).0 == v,
{
    let d = dispute_tx(c, t);
    let rz = resolve_tx(c, t);
    let v1 = step(v, d).0;
    assert(has_record(v.records, t));
    let ri = record_index(v.records, t);
    assert(0 <= ri < v.records.len() && v.records[ri].transaction_id == t);
    let rec = v.records[ri];
    assert(rec.client_id == c && !rec.disputed);
    let a = rec.amount;
    assert(rec.amount > 0);
    let acc = account_or_default(v.accounts, c);
    assert(acc.available >= a);
    if !has_account(v.accounts, c) {
        assert(acc == default_account(c));
        assert(false);
    }
    let ai = account_index(v.accounts, c);
    assert(0 <= ai < v.accounts.len() && v.accounts[ai].client_id == c);
    assert(acc == v.accounts[ai]);
    assert(balanced(v.accounts[ai]));
    let acc1 = with_hold(acc, a);
    let rec1 = with_disputed(rec, true);
    assert(v1.accounts == put_account(v.accounts, acc1));
    assert(v1.records == v.records.update(ri, rec1));
    lemma_put_account_lookup(v.accounts, acc1);
    lemma_records_unique_update(v.records, ri, rec1);
    lemma_record_index_is(v1.records, t, ri);
    assert(v1.records[ri] == rec1);
    assert(account_or_default(v1.accounts, c) == acc1);
    assert(acc1.held == acc.held + a);
    assert(acc1.available == acc.available - a);
    let acc2 = with_release(acc1, a);
    assert(acc2 == acc);
    assert(step(v1, rz).1 is Ok);
    let v2 = step(v1, rz).0;
    assert(v1.accounts == v.accounts.update(ai, acc1));
    lemma_account_index_is(v1.accounts, c, ai);
    assert(v2.accounts == v1.accounts.update(ai, acc2));
    assert(v2.accounts =~= v.accounts);
    assert(with_disputed(rec1, false) == rec);
    assert(v2.records == v1.records.update(ri, rec));
    assert(v2.records =~= v.records);
    assert(v2 =~= v);
}

/// Law: a chargeback that goes through leaves the account it hit locked.
pub proof fn lemma_chargeback_locks(v: LedgerModel, c: i32, t: i32)
    requires
        wf_model(v),
        step(v, chargeback_tx(c, t)).1 is Ok,
    ensures
        is_locked(step(v, chargeback_tx(c, t)).0.accounts, c),
{
    let v1 = step(v, chargeback_tx(c, t)).0;
    let ri = record_index(v.records, t);
    assert(0 <= ri < v.records.len() && v.records[ri].transaction_id == t);
    let rec = v.records[ri];
    assert(rec.amount > 0);
    let acc = account_or_default(v.accounts, c);
    assert(acc.held >= rec.amount);
    if !has_account(v.accounts, c) {
        assert(acc == default_account(c));
        assert(false);
    }
    let acc2 = with_chargeback(acc, rec.amount);
    assert(acc2.client_id == c && acc2.locked);
    lemma_put_account_lookup(v.accounts, acc2);
    assert(account_or_default(v1.accounts, c) == acc2);
}

/// Law: once an account is locked, no transaction whatever unlocks it.
pub proof fn lemma_locked_stays_locked(v: LedgerModel, tx: Transaction, c: i32)
    requires
        wf_model(v),
        is_locked(v.accounts, c),
    ensures
        is_locked(step(v, tx).0.accounts, c),
{
    let v1 = step(v, tx).0;
    if step(v, tx).1 is Ok {
        match tx.transaction_type {
            TransactionType::Deposit => {
                let acc = account_or_default(v.accounts, tx.client_id);
                let acc2 = with_deposit(acc, tx.amount->0);
                assert(!acc.locked);
                assert(tx.client_id != c);
                lemma_put_account_lookup(v.accounts, acc2);
                assert(account_or_default(v1.accounts, c) == account_or_default(v.accounts, c));
            },
            TransactionType::Withdrawal => {
                let acc = account_or_default(v.accounts, tx.client_id);
                let acc2 = with_withdrawal(acc, tx.amount->0);
                assert(!acc.locked);
                assert(tx.client_id != c);
                lemma_put_account_lookup(v.accounts, acc2);
                assert(account_or_default(v1.accounts, c) == account_or_default(v.accounts, c));
            },
            TransactionType::Dispute => {
                let rec = v.records[record_index(v.records, tx.transaction_id)];
                let acc = account_or_default(v.accounts, tx.client_id);
                let acc2 = with_hold(acc, rec.amount);
                assert(acc2.locked == acc.locked);
                lemma_put_account_lookup(v.accounts, acc2);
                if tx.client_id == c {
                    assert(account_or_default(v1.accounts, c) == acc2);
                } else {
                    assert(account_or_default(v1.accounts, c) == account_or_default(
                        v.accounts,
                        c,
                    ));
                }
            },
            TransactionType::Resolve => {
                let rec = v.records[record_index(v.records, tx.transaction_id)];
                let acc = account_or_default(v.accounts, tx.client_id);
                let acc2 = with_release(acc, rec.amount);
                assert(acc2.locked == acc.locked);
                lemma_put_account_lookup(v.accounts, acc2);
                if tx.client_id == c {
                    assert(account_or_default(v1.accounts, c) == acc2);
                } else {
                    assert(account_or_default(v1.accounts, c) == account_or_default(
                        v.accounts,
                        c,
                    ));
                }
            },
            TransactionType::Chargeback => {
                let rec = v.records[record_index(v.records, tx.transaction_id)];
                let acc = account_or_default(v.accounts, tx.client_id);
                let acc2 = with_chargeback(acc, rec.amount);
                assert(acc2.locked);
                lemma_put_account_lookup(v.accounts, acc2);
                if tx.client_id == c {
                    assert(account_or_default(v1.accounts, c) == acc2);
                } else {
                    assert(account_or_default(v1.accounts, c) == account_or_default(
                        v.accounts,
                        c,
                    ));
                }
            },
        }
    }
}

/// Law: a deposit or withdrawal against a locked account is rejected and
/// changes no balance; where nothing else is wrong with it first, the
/// rejection names the lock.
pub proof fn lemma_locked_rejects_deposit_withdrawal(v: LedgerModel, tx: Transaction)
    requires
        wf_model(v),
        tx.transaction_type == TransactionType::Deposit || tx.transaction_type
            == TransactionType::Withdrawal,
        is_locked(v.accounts, tx.client_id),
    ensures
        step(v, tx).0 == v,
        step(v, tx).1 is Err,
        tx.amount is Some && tx.amount->0 != 0 && !has_record(v.records, tx.transaction_id)
            ==> step(v, tx).1 == Err::<(), LedgerError>(LedgerError::AccountLocked),
{
}

} // verus!
