//! A spot exchange on one command type: order books keyed by order ids that the
//! users choose, a sharded ledger that freezes what an order may cost, and the
//! pipeline that runs a command through both.
pub mod api;
pub mod book;
pub mod charges;
pub mod checksum;
pub mod config;
pub mod conservation;
pub mod depth;
pub mod journal;
pub mod laws;
pub mod ledger;
pub mod lifecycle;
pub mod model;
pub mod moves;
pub mod optimized;
pub mod pipeline;
pub mod pooled;
pub mod request;
pub mod risk;
pub mod router;
pub mod routing;
pub mod state;
pub mod users;
pub mod wording;
