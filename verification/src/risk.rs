//! The ledger: balances, reservations and positions.
pub mod account;
pub mod charges;
pub mod engine;
pub mod hold;
pub mod laws;
pub mod margins;
pub mod model;
pub mod rebalancing;
pub mod reports;
pub mod saved;
pub mod transfers;
pub mod value;
