//! A small verified transaction ledger.
//!
//! The crate processes a stream of client-account transactions (deposit,
//! withdrawal, dispute, resolve, chargeback) and maintains per-client
//! balances under strict consistency invariants: for every account,
//! `total == available + held`, no transaction id is recorded twice, and a
//! chargeback locks its account for good.
//!
//! Monetary amounts are fixed-point integers in units of 1/10_000 of a
//! currency unit, so balance arithmetic is exact.

pub mod account;
pub mod errors;
pub mod factory;
pub mod laws;
pub mod ledger;
pub mod parse;
pub mod transaction;
