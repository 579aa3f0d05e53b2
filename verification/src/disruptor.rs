//! A ring of slots between one producer and its consumers.
//!
//! The producer claims a sequence, fills its slot and publishes it. Consumers
//! wait for the published cursor and report how far they have read. Who waits
//! looks again until it may go on; how it pauses in between is a strategy.
pub mod ring;
pub mod sequence;
pub mod wait;
