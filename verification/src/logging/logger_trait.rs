//! The sink interface every logging strategy implements.

use vstd::prelude::*;
use crate::order::Order;
use crate::trade::Trade;

verus! {

/// Pluggable sink for domain events. The engine invokes it in a strict
/// order per operation — trade records first, then each fully consumed
/// resting order's final state, then the incoming order's final state —
/// always from the single engine thread. `finalize` is called exactly once
/// at shutdown and must leave every record durable.
pub trait SimLogger {
    fn log_order_submission(&mut self, order: &Order);

    fn log_trade(&mut self, trade: &Trade);

    fn log_order_cancel(&mut self, order_id: u128, success: bool);

    fn log_order_filled(&mut self, order: &Order);

    fn finalize(&mut self);
}

} // verus!
