//! Turning raw CSV rows into typed transactions, and building accounts.
//!
//! A row carries four fields: transaction type, client id, transaction id,
//! amount. The type field must match one of the five keywords exactly; the
//! numeric fields tolerate surrounding whitespace. A deposit or withdrawal
//! row must carry a positive amount; a dispute, resolve or chargeback row
//! must leave the amount field empty. Any row that breaks this — like any
//! malformed row — is rejected with `None` rather than stopping the run,
//! so only fully-typed transactions ever reach the ledger.

use crate::account::{default_account, Account};
use crate::parse::{
    parse_amount, parse_amount_bytes, parse_i32, parse_i32_bytes, trim_bytes, trimmed,
};
use crate::transaction::{amount_shape_ok, Transaction, TransactionType};
use vstd::prelude::*;

verus! {

/// `csv::StringRecord` holds the fields of one CSV row; declared so records
/// can flow through verified signatures.
#[verifier::external_type_specification]
#[verifier::external_body]
pub struct ExStringRecord(csv::StringRecord);

/// The bytes of field `i` of a record, `None` past the last field. What
/// `csv::StringRecord::get` returns depends on the record's contents alone.
pub uninterp spec fn record_field(r: csv::StringRecord, i: int) -> Option<Seq<u8>>;

/// Relies on csv::StringRecord::get: the field at the given index, or
/// `None` when the index is out of bounds.
#[verifier::external_body]
fn record_field_bytes(rec: &csv::StringRecord, i: usize) -> (r: Option<Vec<u8>>)
    ensures
        r matches Some(v) ==> record_field(*rec, i as int) == Some(v@),
        r is None ==> record_field(*rec, i as int) is None,
{
    rec.get(i).map(|s| s.as_bytes().to_vec())
}

/// The bytes of the keyword `deposit`.
pub open spec fn deposit_keyword() -> Seq<u8> {
    seq![100u8, 101u8, 112u8, 111u8, 115u8, 105u8, 116u8]
}

/// The bytes of the keyword `withdrawal`.
pub open spec fn withdrawal_keyword() -> Seq<u8> {
    seq![119u8, 105u8, 116u8, 104u8, 100u8, 114u8, 97u8, 119u8, 97u8, 108u8]
}

/// The bytes of the keyword `dispute`.
pub open spec fn dispute_keyword() -> Seq<u8> {
    seq![100u8, 105u8, 115u8, 112u8, 117u8, 116u8, 101u8]
}

/// The bytes of the keyword `resolve`.
pub open spec fn resolve_keyword() -> Seq<u8> {
    seq![114u8, 101u8, 115u8, 111u8, 108u8, 118u8, 101u8]
}

/// The bytes of the keyword `chargeback`.
pub open spec fn chargeback_keyword() -> Seq<u8> {
    seq![99u8, 104u8, 97u8, 114u8, 103u8, 101u8, 98u8, 97u8, 99u8, 107u8]
}

/// The transaction type a type field denotes: one of the five keywords,
/// matched exactly.
pub open spec fn parse_type(s: Seq<u8>) -> Option<TransactionType> {
    if s == deposit_keyword() {
        Some(TransactionType::Deposit)
    } else if s == withdrawal_keyword() {
        Some(TransactionType::Withdrawal)
    } else if s == dispute_keyword() {
        Some(TransactionType::Dispute)
    } else if s == resolve_keyword() {
        Some(TransactionType::Resolve)
    } else if s == chargeback_keyword() {
        Some(TransactionType::Chargeback)
    } else {
        None
    }
}

/// Matches a type field against the five keywords.
fn parse_type_bytes(v: &Vec<u8>) -> (r: Option<TransactionType>)
    ensures
        r == parse_type(v@),
{
    if v.len() == 7 && v[0] == 100 && v[1] == 101 && v[2] == 112 && v[3] == 111 && v[4] == 115
        && v[5] == 105 && v[6] == 116 {
        proof {
            assert(v@ =~= deposit_keyword());
        }
        Some(TransactionType::Deposit)
    } else if v.len() == 10 && v[0] == 119 && v[1] == 105 && v[2] == 116 && v[3] == 104 && v[4]
        == 100 && v[5] == 114 && v[6] == 97 && v[7] == 119 && v[8] == 97 && v[9] == 108 {
        proof {
            assert(v@ =~= withdrawal_keyword());
        }
        Some(TransactionType::Withdrawal)
    } else if v.len() == 7 && v[0] == 100 && v[1] == 105 && v[2] == 115 && v[3] == 112 && v[4]
        == 117 && v[5] == 116 && v[6] == 101 {
        proof {
            assert(v@ =~= dispute_keyword());
        }
        Some(TransactionType::Dispute)
    } else if v.len() == 7 && v[0] == 114 && v[1] == 101 && v[2] == 115 && v[3] == 111 && v[4]
        == 108 && v[5] == 118 && v[6] == 101 {
        proof {
            assert(v@ =~= resolve_keyword());
        }
        Some(TransactionType::Resolve)
    } else if v.len() == 10 && v[0] == 99 && v[1] == 104 && v[2] == 97 && v[3] == 114 && v[4]
        == 103 && v[5] == 101 && v[6] == 98 && v[7] == 97 && v[8] == 99 && v[9] == 107 {
        proof {
            assert(v@ =~= chargeback_keyword());
        }
        Some(TransactionType::Chargeback)
    } else {
        proof {
            if v@ == deposit_keyword() {
                assert(v@[0] == 100 && v@[1] == 101 && v@[2] == 112 && v@[3] == 111 && v@[4]
                    == 115 && v@[5] == 105 && v@[6] == 116);
            }
            if v@ == withdrawal_keyword() {
                assert(v@[0] == 119 && v@[1] == 105 && v@[2] == 116 && v@[3] == 104 && v@[4]
                    == 100 && v@[5] == 114 && v@[6] == 97 && v@[7] == 119 && v@[8] == 97 && v@[9]
                    == 108);
            }
            if v@ == dispute_keyword() {
                assert(v@[0] == 100 && v@[1] == 105 && v@[2] == 115 && v@[3] == 112 && v@[4]
                    == 117 && v@[5] == 116 && v@[6] == 101);
            }
            if v@ == resolve_keyword() {
                assert(v@[0] == 114 && v@[1] == 101 && v@[2] == 115 && v@[3] == 111 && v@[4]
                    == 108 && v@[5] == 118 && v@[6] == 101);
            }
            if v@ == chargeback_keyword() {
                assert(v@[0] == 99 && v@[1] == 104 && v@[2] == 97 && v@[3] == 114 && v@[4] == 103
                    && v@[5] == 101 && v@[6] == 98 && v@[7] == 97 && v@[8] == 99 && v@[9] == 107);
            }
        }
        None
    }
}

/// The transaction a four-field row denotes, if any: every field present,
/// a known type keyword, well-formed numbers, and an amount that fits the
/// type — present and positive for a deposit or withdrawal (an empty field
/// stands for no amount), absent for a dispute, resolve or chargeback.
/// A row that breaks any of this yields no transaction at all, so the
/// ledger never receives a partially-typed instruction.
pub open spec fn spec_create_transaction(
    f0: Option<Seq<u8>>,
    f1: Option<Seq<u8>>,
    f2: Option<Seq<u8>>,
    f3: Option<Seq<u8>>,
) -> Option<Transaction> {
    if f0 is Some && f1 is Some && f2 is Some && f3 is Some {
        match parse_type(f0->0) {
            None => None,
            Some(ty) => match parse_i32(trimmed(f1->0)) {
                None => None,
                Some(c) => match parse_i32(trimmed(f2->0)) {
                    None => None,
                    Some(t) => if f3->0.len() == 0 {
                        if amount_shape_ok(ty, Option::<u64>::None) {
                            Some(
                                Transaction {
                                    transaction_type: ty,
                                    client_id: c,
                                    transaction_id: t,
                                    amount: None,
                                },
                            )
                        } else {
                            None
                        }
                    } else {
                        match parse_amount(trimmed(f3->0)) {
                            None => None,
                            Some(a) => if amount_shape_ok(ty, Some(a)) && a != 0 {
                                Some(
                                    Transaction {
                                        transaction_type: ty,
                                        client_id: c,
                                        transaction_id: t,
                                        amount: Some(a),
                                    },
                                )
                            } else {
                                None
                            },
                        }
                    },
                },
            },
        }
    } else {
        None
    }
}

/// Builds transactions out of raw CSV rows.
pub struct TransactionFactory {}

impl TransactionFactory {
    /// Parses one CSV row into a typed transaction: `None` for a row with
    /// missing fields, an unknown type keyword, malformed numbers, or an
    /// amount that does not fit the transaction type, so a bad row never
    /// stops the run and the ledger only ever sees fully-typed input.
    pub fn create_transaction(csv_entry: &csv::StringRecord) -> (r: Option<Transaction>)
        ensures
            r == spec_create_transaction(
                record_field(*csv_entry, 0),
                record_field(*csv_entry, 1),
                record_field(*csv_entry, 2),
                record_field(*csv_entry, 3),
            ),
    {
        let f0 = record_field_bytes(csv_entry, 0);
        let f1 = record_field_bytes(csv_entry, 1);
        let f2 = record_field_bytes(csv_entry, 2);
        let f3 = record_field_bytes(csv_entry, 3);
        match (f0, f1, f2, f3) {
            (Some(b0), Some(b1), Some(b2), Some(b3)) => {
                let ty = match parse_type_bytes(&b0) {
                    Some(ty) => ty,
                    None => {
                        return None;
                    },
                };
                let tb1 = trim_bytes(&b1);
                let c = match parse_i32_bytes(&tb1) {
                    Some(c) => c,
                    None => {
                        return None;
                    },
                };
                let tb2 = trim_bytes(&b2);
                let t = match parse_i32_bytes(&tb2) {
                    Some(t) => t,
                    None => {
                        return None;
                    },
                };
                let amount: Option<u64> = if b3.len() == 0 {
                    None
                } else {
                    let tb3 = trim_bytes(&b3);
                    match parse_amount_bytes(&tb3) {
                        Some(a) => Some(a),
                        None => {
                            return None;
                        },
                    }
                };
                match Transaction::new(ty, c, t, amount) {
                    Ok(tx) => Some(tx),
                    Err(_) => None,
                }
            },
            _ => None,
        }
    }
}

/// Builds accounts.
pub struct AccountFactory {}

impl AccountFactory {
    /// An account with the given balances.
    pub fn create_account(
        client_id: i32,
        available: u64,
        total: u64,
        held: u64,
        locked: bool,
    ) -> (a: Account)
        ensures
            a == (Account { client_id, available, total, held, locked }),
    {
        Account { client_id, available, total, held, locked }
    }

    /// The account a first transaction for `client_id` starts from.
    pub fn create_default_account(client_id: i32) -> (a: Account)
        ensures
            a == default_account(client_id),
    {
        Account { client_id, available: 0, total: 0, held: 0, locked: false }
    }
}

} // verus!
