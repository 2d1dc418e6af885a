//! A continuous double-auction order book: bids and asks are kept in a
//! host-supplied key/value store and crossed in price-time priority.

pub mod book;
pub mod codec;
pub mod contract;
pub mod error;
pub mod ingest;
pub mod invariants;
pub mod late;
pub mod ledger;
pub mod matching;
pub mod model;
pub mod msg;
pub mod quantity;
pub mod ranking;
pub mod state;
pub mod store;
pub mod sweep;
pub mod text;
pub mod tick;
