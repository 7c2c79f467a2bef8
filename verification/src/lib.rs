//! A ledger engine that replays an ordered log of deposits, withdrawals and
//! dispute events into per-client account balances.
//!
//! Amounts are whole numbers of the smallest currency unit, so every balance
//! is exact. The behaviour of the engine is given by a small mathematical
//! state machine ([`ledger::step`], [`ledger::replay`]); the executable code
//! is proved to compute exactly that.

pub mod account;
pub mod laws;
pub mod ledger;
pub mod records;
pub mod report;
pub mod source;
pub mod text;
pub mod transaction;
