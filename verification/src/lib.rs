//! A shared-expense ledger: groups of members with signed net balances,
//! expense posting that turns one expense into balance deltas, a greedy
//! settlement planner that matches debtors against creditors, and a
//! partial-failure-tolerant settlement executor.
//!
//! Everything that touches the host environment (persistent storage, caller
//! identity, the payment rail) stays outside this crate; the library works on
//! plain values and proves what each operation does to them.

pub mod distribution;
pub mod errors;
pub mod expense;
pub mod group;
pub mod input_models;
pub mod output_models;
pub mod settlement;
pub mod utils;
