//! State-transition core of a small ledger: account balances with a
//! conservation-preserving transfer, a block counter and per-account nonces.

pub mod account_map;
pub mod balances;
pub mod key_order;
pub mod system;
