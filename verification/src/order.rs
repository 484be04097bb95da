//! The order record: an immutable identity (id, instrument, side, type,
//! limit price, original quantity, submission timestamp) plus the two fields
//! that matching updates, `remaining_quantity` and `status`.

use vstd::prelude::*;
use crate::trusted::now_nanos;
use crate::utils::{OrderStatus, OrderType, Side};

verus! {

#[derive(Debug, PartialEq, Eq)]
pub struct Order {
    pub order_id: u128,
    pub instrument: String,
    pub side: Side,
    pub order_type: OrderType,
    pub status: OrderStatus,
    pub price: Option<u64>,
    pub quantity: u64,
    pub remaining_quantity: u64,
    pub timestamp: u64,
}

impl Clone for Order {
    fn clone(&self) -> (r: Order)
        ensures
            r == *self,
    {
        Order {
            order_id: self.order_id,
            instrument: self.instrument.clone(),
            side: self.side,
            order_type: self.order_type,
            status: self.status,
            price: self.price,
            quantity: self.quantity,
            remaining_quantity: self.remaining_quantity,
            timestamp: self.timestamp,
        }
    }
}

impl Order {
    /// LIMIT orders carry a price, MARKET orders none.
    pub open spec fn type_price_consistent(self) -> bool {
        self.order_type == OrderType::Limit <==> self.price is Some
    }

    /// A freshly submitted order: nothing filled yet.
    pub open spec fn fresh(self) -> bool {
        &&& self.status == OrderStatus::New
        &&& self.remaining_quantity == self.quantity
    }

    /// The fields that matching never touches.
    pub open spec fn same_identity(self, other: Order) -> bool {
        &&& self.order_id == other.order_id
        &&& self.instrument == other.instrument
        &&& self.side == other.side
        &&& self.order_type == other.order_type
        &&& self.price == other.price
        &&& self.quantity == other.quantity
        &&& self.timestamp == other.timestamp
    }

    /// The remaining quantity after a fill of `qty` (clamped at zero).
    pub open spec fn remaining_after(self, qty: u64) -> u64 {
        if qty > self.remaining_quantity {
            0u64
        } else {
            (self.remaining_quantity - qty) as u64
        }
    }

    /// The whole record after a fill of `qty`: identity kept, remaining
    /// decremented, status FILLED or PARTIALLY_FILLED.
    pub open spec fn after_fill(self, qty: u64) -> Order {
        Order {
            remaining_quantity: self.remaining_after(qty),
            status: if self.remaining_after(qty) == 0 {
                OrderStatus::Filled
            } else {
                OrderStatus::PartiallyFilled
            },
            ..self
        }
    }

    pub fn new_limit(
        order_id: u128,
        instrument: String,
        side: Side,
        price: u64,
        quantity: u64,
    ) -> (r: Order)
        ensures
            r.order_id == order_id,
            r.instrument == instrument,
            r.side == side,
            r.order_type == OrderType::Limit,
            r.price == Some(price),
            r.quantity == quantity,
            r.fresh(),
            r.type_price_consistent(),
    {
        Order::new(order_id, instrument, side, OrderType::Limit, Some(price), quantity)
    }

    pub fn new_market(order_id: u128, instrument: String, side: Side, quantity: u64) -> (r: Order)
        ensures
            r.order_id == order_id,
            r.instrument == instrument,
            r.side == side,
            r.order_type == OrderType::Market,
            r.price is None,
            r.quantity == quantity,
            r.fresh(),
            r.type_price_consistent(),
    {
        Order::new(order_id, instrument, side, OrderType::Market, None, quantity)
    }

    fn new(
        order_id: u128,
        instrument: String,
        side: Side,
        order_type: OrderType,
        price: Option<u64>,
        quantity: u64,
    ) -> (r: Order)
        ensures
            r.order_id == order_id,
            r.instrument == instrument,
            r.side == side,
            r.order_type == order_type,
            r.price == price,
            r.quantity == quantity,
            r.fresh(),
    {
        let timestamp: u64 = now_nanos();
        Order {
            order_id,
            instrument,
            side,
            order_type,
            status: OrderStatus::New,
            price,
            quantity,
            remaining_quantity: quantity,
            timestamp,
        }
    }

    pub fn is_filled(&self) -> (r: bool)
        ensures
            r == (self.remaining_quantity == 0),
    {
        self.remaining_quantity == 0
    }

    /// Consume `qty` of the remaining quantity (clamped at zero) and update
    /// the status: FILLED once nothing remains, else PARTIALLY_FILLED.
    pub fn fill(&mut self, qty: u64)
        ensures
            *final(self) == old(self).after_fill(qty),
            final(self).remaining_quantity == old(self).remaining_after(qty),
            final(self).status == if final(self).remaining_quantity == 0 {
                OrderStatus::Filled
            } else {
                OrderStatus::PartiallyFilled
            },
            final(self).same_identity(*old(self)),
    {
        if qty > self.remaining_quantity {
            self.remaining_quantity = 0;
        } else {
            self.remaining_quantity = self.remaining_quantity - qty;
        }

        if self.is_filled() {
            self.status = OrderStatus::Filled;
        } else {
            self.status = OrderStatus::PartiallyFilled;
        }
    }
}

} // verus!
