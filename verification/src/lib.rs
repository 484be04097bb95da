//! Core of a single-venue exchange simulator: a per-instrument limit order
//! book with strict price-time priority, the matching engine that routes and
//! validates orders, and the event types handed to pluggable loggers.

pub mod utils;
pub mod order;
pub mod trade;
pub mod trusted;
pub mod orderbook;
pub mod engine;
pub mod simulation;
pub mod laws;
pub mod logging;
