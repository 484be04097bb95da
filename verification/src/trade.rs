//! The trade record: write-once evidence of one execution between a resting
//! (maker) order and the incoming (taker) order.

use vstd::prelude::*;
use crate::trusted::{fresh_uuid_value, now_nanos};
use crate::utils::Side;

verus! {

#[derive(Debug, PartialEq, Eq)]
pub struct Trade {
    pub trade_id: u128,
    pub instrument: String,
    pub price: u64,
    pub quantity: u64,
    pub timestamp: u64,
    pub buy_order_id: u128,
    pub sell_order_id: u128,
    pub taker_side: Side,
}

impl Clone for Trade {
    fn clone(&self) -> (r: Trade)
        ensures
            r == *self,
    {
        Trade {
            trade_id: self.trade_id,
            instrument: self.instrument.clone(),
            price: self.price,
            quantity: self.quantity,
            timestamp: self.timestamp,
            buy_order_id: self.buy_order_id,
            sell_order_id: self.sell_order_id,
            taker_side: self.taker_side,
        }
    }
}

impl Trade {
    /// The order id of the resting (maker) party, given the taker's side.
    pub open spec fn maker_id(self) -> u128 {
        if self.taker_side == Side::Buy {
            self.sell_order_id
        } else {
            self.buy_order_id
        }
    }

    pub fn new(
        instrument: String,
        price: u64,
        quantity: u64,
        buy_order_id: u128,
        sell_order_id: u128,
        taker_side: Side,
    ) -> (r: Trade)
        ensures
            r.instrument == instrument,
            r.price == price,
            r.quantity == quantity,
            r.buy_order_id == buy_order_id,
            r.sell_order_id == sell_order_id,
            r.taker_side == taker_side,
    {
        let timestamp: u64 = now_nanos();
        let trade_id: u128 = fresh_uuid_value();
        Trade {
            trade_id,
            instrument,
            price,
            quantity,
            timestamp,
            buy_order_id,
            sell_order_id,
            taker_side,
        }
    }
}

} // verus!
