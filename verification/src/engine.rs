//! The command engine: books and ledger behind one entrance.
pub mod backing;
pub mod facade;
pub mod failures;
pub mod laws;
pub mod lemmas;
pub mod model;
pub mod orders;
pub mod pipeline;
pub mod positions;
pub mod saved;
pub mod stops;
pub mod transfers;
pub mod worth;
