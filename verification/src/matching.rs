//! Order books. Money never moves here.
pub mod book;
pub mod fairness;
pub mod history;
pub mod laws;
pub mod model;
pub mod outcome;
pub mod saved;
