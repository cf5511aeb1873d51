//! Persistent-state and reward-accrual ledger for a collateral-custody
//! component: per-borrower collateral records, a monotonically growing
//! global reward index with per-user settlement arithmetic, and a
//! cursor-based paginated enumeration of all borrowers, all stored in an
//! ordered byte-keyed key-value store.

pub mod codec;
pub mod keys;
pub mod kv;
pub mod lex;
pub mod rewards;
pub mod state;
pub mod types;
