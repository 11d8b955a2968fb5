//! A verified order-matching engine: price-sorted books of FIFO price
//! levels, market and limit matching with partial fills, an append-only
//! trade ledger, and depth aggregation.

pub mod types;
pub mod model;
pub mod lemmas;
pub mod orderbook;
pub mod laws;
mod clock;
