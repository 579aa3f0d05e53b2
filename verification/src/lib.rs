//! A verified matching engine: price-time order books, a double-entry risk
//! ledger, the command engine on top of them, and the framing of its journal.
pub mod disruptor;
pub mod engine;
pub mod matching;
pub mod exchange;
pub mod math;
pub mod metrics;
pub mod risk;
pub mod store;
pub mod text;
pub mod types;
pub mod wal;
