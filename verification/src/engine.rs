//! The matching engine: a router and validator in front of the
//! per-instrument books. It performs no matching itself — it checks the
//! type/price consistency of each incoming order, finds the book for its
//! instrument, and fans the resulting events out to the logger.

use vstd::prelude::*;
use crate::logging::logger_trait::SimLogger;
use crate::logging::types::{LogMessage, submission_log_events};
use crate::order::Order;
use crate::orderbook::{OrderBook, cancel_outcome, index_find, submit_outcome};
use crate::trade::Trade;
use crate::utils::{MatchingEngineError, OrderBookDisplay, OrderType};

verus! {

pub struct MatchingEngine {
    pub books: Vec<OrderBook>,
}

/// A just-registered book: the right instrument and nothing resting.
pub open spec fn empty_book(b: OrderBook, inst: Seq<char>) -> bool {
    &&& b.instrument@ == inst
    &&& b.bids@.len() == 0
    &&& b.asks@.len() == 0
    &&& b.orders@.len() == 0
}

/// One book — the one for the order's instrument — absorbed the order as
/// `submit_outcome` describes, producing the trades `ts`, and every other
/// book stands untouched.
pub open spec fn routed_submit(
    e0: MatchingEngine,
    o: Order,
    ts: Seq<Trade>,
    e1: MatchingEngine,
) -> bool {
    exists|i: int, fs: Seq<Order>, fin: Order|
        0 <= i < e0.books@.len() && e0.books@[i].instrument@ == o.instrument@
            && #[trigger] submit_outcome(e0.books@[i], o, ts, fs, fin, e1.books@[i])
            && e1.books@.len() == e0.books@.len() && (forall|i2: int|
            0 <= i2 < e0.books@.len() && i2 != i ==> e1.books@[i2] == e0.books@[i2])
}

impl MatchingEngine {
    /// Every book is internally consistent and no two books share an
    /// instrument symbol.
    pub open spec fn inv(self) -> bool {
        &&& forall|i: int| 0 <= i < self.books@.len() ==> (#[trigger] self.books@[i]).inv()
        &&& forall|i: int, j: int|
            0 <= i < j < self.books@.len() ==> self.books@[i].instrument@
                != self.books@[j].instrument@
    }

    pub open spec fn has_market(self, inst: Seq<char>) -> bool {
        exists|i: int| 0 <= i < self.books@.len() && self.books@[i].instrument@ == inst
    }

    /// No book anywhere holds a resting order with this id.
    pub open spec fn order_id_free(self, id: u128) -> bool {
        forall|i: int| 0 <= i < self.books@.len() ==> !(#[trigger] self.books@[i]).index_has(id)
    }

    pub fn new() -> (r: MatchingEngine)
        ensures
            r.inv(),
            r.books@.len() == 0,
    {
        MatchingEngine { books: Vec::new() }
    }

    /// Register an instrument: create an empty book for it, replacing any
    /// existing book for the same symbol (callers are expected to register
    /// each symbol once).
    pub fn add_market(&mut self, instrument: String)
        requires
            old(self).inv(),
        ensures
            final(self).inv(),
            final(self).has_market(instrument@),
            old(self).has_market(instrument@) ==> exists|i: int|
                0 <= i < old(self).books@.len() && old(self).books@[i].instrument@ == instrument@
                    && final(self).books@.len() == old(self).books@.len() && (forall|i2: int|
                    0 <= i2 < old(self).books@.len() && i2 != i ==> final(self).books@[i2] == old(
                        self,
                    ).books@[i2]) && empty_book(final(self).books@[i], instrument@),
            !old(self).has_market(instrument@) ==> final(self).books@.len() == old(
                self,
            ).books@.len() + 1 && (forall|i2: int|
                0 <= i2 < old(self).books@.len() ==> final(self).books@[i2] == old(
                    self,
                ).books@[i2]) && empty_book(final(self).books@.last(), instrument@),
    {
        let ghost instg: Seq<char> = instrument@;
        let iopt: Option<usize> = find_book_index(&self.books, &instrument);
        match iopt {
            Option::Some(i) => {
                let fresh: OrderBook = OrderBook::new(instrument);
                self.books.remove(i);
                self.books.insert(i, fresh);
                proof {
                    assert(self.books@[i as int].instrument@ == instg);
                    assert(empty_book(self.books@[i as int], instg));
                    assert forall|i2: int, j2: int|
                        0 <= i2 < j2 < self.books@.len() implies self.books@[i2].instrument@
                        != self.books@[j2].instrument@ by {
                        if i2 != i && j2 != i {
                            assert(self.books@[i2] == old(self).books@[i2]);
                            assert(self.books@[j2] == old(self).books@[j2]);
                        } else if i2 == i {
                            assert(self.books@[j2] == old(self).books@[j2]);
                            assert(old(self).books@[i as int].instrument@ == instg);
                        } else {
                            assert(self.books@[i2] == old(self).books@[i2]);
                            assert(old(self).books@[i as int].instrument@ == instg);
                        }
                    };
                }
            },
            Option::None => {
                self.books.push(OrderBook::new(instrument));
                proof {
                    assert(self.books@.last().instrument@ == instg);
                    assert(empty_book(self.books@.last(), instg));
                    assert forall|i2: int, j2: int|
                        0 <= i2 < j2 < self.books@.len() implies self.books@[i2].instrument@
                        != self.books@[j2].instrument@ by {
                        if j2 == self.books@.len() - 1 {
                            assert(self.books@[i2] == old(self).books@[i2]);
                        } else {
                            assert(self.books@[i2] == old(self).books@[i2]);
                            assert(self.books@[j2] == old(self).books@[j2]);
                        }
                    };
                }
            },
        }
    }

    /// Validate and route an incoming order. MARKET with a price or LIMIT
    /// without one is InvalidOrderPrice; an unregistered instrument is
    /// MarketNotFound; otherwise the instrument's book matches the order
    /// and every resulting event goes to the logger: trades first, then
    /// each fully consumed maker's final state, then the incoming order's
    /// final state when it filled or was a MARKET order.
    pub fn process_order<L: SimLogger>(&mut self, order: Order, logger: &mut L) -> (r: Result<
        Vec<Trade>,
        MatchingEngineError,
    >)
        requires
            old(self).inv(),
            order.fresh(),
            old(self).order_id_free(order.order_id),
        ensures
            final(self).inv(),
            !order.type_price_consistent() ==> r == Err::<Vec<Trade>, MatchingEngineError>(
                MatchingEngineError::InvalidOrderPrice,
            ) && *final(self) == *old(self),
            order.type_price_consistent() && !old(self).has_market(order.instrument@) ==> r
                == Err::<Vec<Trade>, MatchingEngineError>(
                MatchingEngineError::MarketNotFound(order.instrument),
            ) && *final(self) == *old(self),
            order.type_price_consistent() && old(self).has_market(order.instrument@) ==> r is Ok
                && routed_submit(*old(self), order, r.unwrap()@, *final(self)),
    {
        match order.order_type {
            OrderType::Market => {
                if order.price.is_some() {
                    return Err(MatchingEngineError::InvalidOrderPrice);
                }
            },
            OrderType::Limit => {
                if order.price.is_none() {
                    return Err(MatchingEngineError::InvalidOrderPrice);
                }
            },
        }

        let iopt: Option<usize> = find_book_index(&self.books, &order.instrument);
        let i: usize = match iopt {
            Option::Some(i) => i,
            Option::None => {
                return Err(MatchingEngineError::MarketNotFound(order.instrument));
            },
        };

        let ghost o0: Order = order;
        let ghost b0: OrderBook = self.books@[i as int];
        let mut book: OrderBook = self.books.remove(i);
        let (trades, filled, fin): (Vec<Trade>, Vec<Order>, Order) = book.add_order(order);
        self.books.insert(i, book);
        proof {
            assert(self.books@[i as int].instrument@ == b0.instrument@);
            assert forall|i2: int, j2: int|
                0 <= i2 < j2 < self.books@.len() implies self.books@[i2].instrument@
                != self.books@[j2].instrument@ by {
                if i2 != i && j2 != i {
                    assert(self.books@[i2] == old(self).books@[i2]);
                    assert(self.books@[j2] == old(self).books@[j2]);
                }
            };
        }

        let events: Vec<LogMessage> = submission_log_events(&trades, &filled, &fin);
        let mut e: usize = 0;
        let n_events: usize = events.len();
        while e < n_events
            invariant
                n_events == events@.len(),
            decreases n_events - e,
        {
            match &events[e] {
                LogMessage::OrderSubmission(o) => logger.log_order_submission(o),
                LogMessage::Trade(t) => logger.log_trade(t),
                LogMessage::OrderCancel(d) => logger.log_order_cancel(d.order_id, d.success),
                LogMessage::OrderFilled(o) => logger.log_order_filled(o),
            }
            e = e + 1;
        }
        proof {
            assert(routed_submit(*old(self), o0, trades@, *self)) by {
                assert(self.books@.len() == old(self).books@.len());
                assert forall|i2: int|
                    0 <= i2 < old(self).books@.len() && i2 != i implies self.books@[i2] == old(
                    self,
                ).books@[i2] by {}
                assert(old(self).books@[i as int].instrument@ == o0.instrument@);
                assert(submit_outcome(
                    old(self).books@[i as int],
                    o0,
                    trades@,
                    filled@,
                    fin,
                    self.books@[i as int],
                ));
            };
        }
        Ok(trades)
    }

    /// Cancel by id on the named instrument's book. MarketNotFound when the
    /// symbol is unregistered, OrderNotFound when the book does not know
    /// the id; otherwise the resting order leaves the book and comes back
    /// with status CANCELLED.
    pub fn cancel_order_by_id(&mut self, order_id: u128, instrument: &str) -> (r: Result<
        Order,
        MatchingEngineError,
    >)
        requires
            old(self).inv(),
        ensures
            final(self).inv(),
            !old(self).has_market(instrument@) ==> *final(self) == *old(self) && (r matches Err(e)
                && e matches MatchingEngineError::MarketNotFound(s) && s@ == instrument@),
            old(self).has_market(instrument@) ==> exists|i: int|
                0 <= i < old(self).books@.len() && (#[trigger] old(self).books@[i]).instrument@
                    == instrument@ && final(self).books@.len() == old(self).books@.len() && (
                forall|i2: int|
                    0 <= i2 < old(self).books@.len() && i2 != i ==> final(self).books@[i2] == old(
                        self,
                    ).books@[i2]) && (r is Ok <==> old(self).books@[i].index_has(order_id)) && (
                !old(self).books@[i].index_has(order_id) ==> final(self).books@[i] == old(
                    self,
                ).books@[i] && r == Err::<Order, MatchingEngineError>(
                    MatchingEngineError::OrderNotFound(order_id),
                )) && (r matches Ok(removed) ==> cancel_outcome(
                    old(self).books@[i],
                    order_id,
                    removed,
                    final(self).books@[i],
                )),
    {
        let inst: String = instrument.to_owned();
        let iopt: Option<usize> = find_book_index(&self.books, &inst);
        let i: usize = match iopt {
            Option::Some(i) => i,
            Option::None => {
                return Err(MatchingEngineError::MarketNotFound(inst));
            },
        };
        let ghost b0: OrderBook = self.books@[i as int];
        let mut book: OrderBook = self.books.remove(i);
        let r: Result<Order, MatchingEngineError> = book.cancel_order(order_id);
        self.books.insert(i, book);
        proof {
            assert(self.books@[i as int].instrument@ == b0.instrument@);
            assert forall|i2: int, j2: int|
                0 <= i2 < j2 < self.books@.len() implies self.books@[i2].instrument@
                != self.books@[j2].instrument@ by {
                if i2 != i && j2 != i {
                    assert(self.books@[i2] == old(self).books@[i2]);
                    assert(self.books@[j2] == old(self).books@[j2]);
                }
            };
        }
        r
    }

    /// Whether any book holds a resting order with this id. Drivers call
    /// this before submitting, since ids are assigned outside the engine
    /// and resting ids must stay unique.
    pub fn has_open_order(&self, order_id: u128) -> (r: bool)
        ensures
            r == !self.order_id_free(order_id),
    {
        let n: usize = self.books.len();
        let mut i: usize = 0;
        while i < n
            invariant
                n == self.books@.len(),
                0 <= i <= n,
                forall|i2: int| 0 <= i2 < i ==> !(#[trigger] self.books@[i2]).index_has(order_id),
            decreases n - i,
        {
            let kopt: Option<usize> = index_find(&self.books[i].orders, order_id);
            if kopt.is_some() {
                return true;
            }
            i = i + 1;
        }
        false
    }

    /// The aggregated snapshot of the named instrument's book, if any.
    pub fn get_order_book_display(&self, instrument: &str) -> (r: Option<OrderBookDisplay>)
        requires
            self.inv(),
        ensures
            r is Some <==> self.has_market(instrument@),
            r matches Some(d) ==> exists|i: int|
                0 <= i < self.books@.len() && (#[trigger] self.books@[i]).instrument@
                    == instrument@ && OrderBook::display_of(self.books@[i], d),
    {
        let inst: String = instrument.to_owned();
        let iopt: Option<usize> = find_book_index(&self.books, &inst);
        match iopt {
            Option::Some(i) => Some(self.books[i].display()),
            Option::None => None,
        }
    }
}

/// Find the book for this instrument, if registered.
fn find_book_index(books: &Vec<OrderBook>, instrument: &String) -> (r: Option<usize>)
    ensures
        r matches Some(i) ==> i < books@.len() && books@[i as int].instrument@ == instrument@,
        r is None ==> forall|i: int| 0 <= i < books@.len() ==> books@[i].instrument@
            != instrument@,
{
    let n: usize = books.len();
    let mut i: usize = 0;
    while i < n
        invariant
            n == books@.len(),
            0 <= i <= n,
            forall|i2: int| 0 <= i2 < i ==> books@[i2].instrument@ != instrument@,
        decreases n - i,
    {
        if books[i].instrument.eq(instrument) {
            return Some(i);
        }
        i = i + 1;
    }
    None
}

} // verus!
