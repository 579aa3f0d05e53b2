//! Containers that the engines are built from.
pub mod arena;
pub mod coded;
pub mod keyed;
pub mod ladder;
pub mod listing;
pub mod sums;
