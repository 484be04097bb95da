//! Shared domain vocabulary: order sides, types and statuses, the engine's
//! error surface, the row shape replayed by the driver, and the aggregated
//! book view handed out by `display`.
//!
//! Prices and quantities are exact fixed-point decimals represented as `u64`
//! counts of the smallest currency/quantity unit, so that equality and
//! ordering are exact and prices can serve as map keys.

use vstd::prelude::*;

verus! {

#[derive(Clone, Copy, Debug, PartialEq, Eq, Structural)]
pub enum Side {
    Buy,
    Sell,
}

#[derive(Clone, Copy, Debug, PartialEq, Eq, Structural)]
pub enum OrderType {
    Market,
    Limit,
}

#[derive(Clone, Copy, Debug, PartialEq, Eq, Structural)]
pub enum OrderStatus {
    New,
    PartiallyFilled,
    Filled,
    Canceled,
}

pub open spec fn opposite(s: Side) -> Side {
    match s {
        Side::Buy => Side::Sell,
        Side::Sell => Side::Buy,
    }
}

/// One replayed driver row, already reduced to plain values: the operation
/// and its optional columns. The order id (for NEW and CANCEL alike) rides in
/// `order_to_cancel`, pre-assigned by the workload generator.
#[derive(Clone, Debug)]
pub struct Operation {
    pub operation: String,
    pub instrument: String,
    pub side: Option<String>,
    pub order_type: Option<String>,
    pub quantity: Option<u64>,
    pub price: Option<u64>,
    pub order_to_cancel: Option<String>,
}

#[derive(Clone, Debug, PartialEq, Eq)]
pub enum MatchingEngineError {
    /// submit or cancel against an unregistered instrument
    MarketNotFound(String),
    /// cancel of an unknown or already-removed order
    OrderNotFound(u128),
    /// LIMIT with no price, or MARKET with a price
    InvalidOrderPrice,
}

/// One aggregated side entry of a book snapshot: the price of a non-empty
/// level and the summed remaining quantity across its queue. The sum of many
/// `u64` quantities needs the wider type.
#[derive(Clone, Copy, Debug, PartialEq, Eq, Structural)]
pub struct PriceLevel {
    pub price: u64,
    pub volume: u128,
}

/// Read-only aggregated view of one book: bids best-first (descending price),
/// asks best-first (ascending price).
#[derive(Clone, Debug)]
pub struct OrderBookDisplay {
    pub bids: Vec<PriceLevel>,
    pub asks: Vec<PriceLevel>,
}

} // verus!
