//! A per-client ledger engine: applies deposits, withdrawals and the dispute
//! lifecycle to client accounts, and folds a record stream into final balances.

pub mod amount;
pub mod transaction;
pub mod account;
pub mod engine;
