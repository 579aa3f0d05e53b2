//! The journal of commands and the names of saved states.
pub mod journal;
pub mod snapshot;
