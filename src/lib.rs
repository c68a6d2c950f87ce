//! Core of a sharded stock exchange node: a price-time-priority matching
//! engine, a per-account ledger with reservations and pending cross-node
//! trades, and the settlement logic that ties them together.

pub mod types;
pub mod sums;
pub mod tally;
pub mod idmap;
pub mod depth;
pub mod account;
pub mod matcher;
pub mod state;
pub mod exchange;
pub mod request;
pub mod placement;
pub mod laws;
