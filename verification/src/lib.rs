//! Transaction ledger and synchronization core.
//!
//! Endpoints exchange value transfers and keep two views of them in step: a
//! queryable log with aggregate statistics, and a per-endpoint ledger that is
//! updated from locally created and peer-broadcast transfers.
//!
//! Amounts are whole numbers of minor units ([`transaction::MINOR_PER_UNIT`]
//! to the unit), so every sum in this crate is exact.

pub mod client;
pub mod conservation;
pub mod ident;
pub mod ledger;
pub mod listing;
pub mod log;
pub mod peers;
pub mod query;
pub mod signaling;
pub mod stats;
pub mod text;
pub mod totals;
pub mod transaction;
