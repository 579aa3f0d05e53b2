//! Vocabulary of the exchange: identifiers, quantities, commands and events.
pub mod command;
pub mod enums;
pub mod event;
pub mod ids;
pub mod invariants;
pub mod numeric;
pub mod receipt;
pub mod reject;
pub mod symbol;
