//! A minimal ledger: wallets with a credit limit and a running balance,
//! mutated by validated debit/credit operations and queried through a
//! recent-activity statement.

pub mod clock;
pub mod engine;
pub mod errors;
pub mod laws;
pub mod ledger;
pub mod request;
