//! The book's quantified guarantees, stated once and proved from the
//! invariant and the submit/cancel contracts: uniqueness of every resting
//! order's location, absence of empty levels, maker pricing and taker
//! attribution of every trade, quantity conservation on both sides of a
//! match, head-first consumption of every touched level, best-price-first
//! matching, and the submit-then-cancel round trip.

use vstd::prelude::*;
use crate::order::Order;
use crate::orderbook::{
    IndexEntry, Level, OrderBook, better, cancel_outcome, crosses, has_resting, resting_order_wf,
    submit_outcome, trades_qty_sum,
};
use crate::trade::Trade;
use crate::utils::{OrderStatus, OrderType, Side, opposite};

verus! {

/// Two sides hold the same data, level by level: equal prices and equal
/// queues.
pub open spec fn same_levels(a: Seq<Level>, b: Seq<Level>) -> bool {
    &&& a.len() == b.len()
    &&& forall|i: int|
        0 <= i < a.len() ==> (#[trigger] a[i]).price == b[i].price && a[i].orders@ == b[i].orders@
}

/// Every order resting in a queue is a LIMIT order of that queue's side
/// and price, with 0 < remaining <= original quantity.
pub proof fn lemma_resting_order_wf(b: OrderBook, s: Side, li: int, j: int)
    requires
        b.inv(),
        0 <= li < b.levels_of(s).len(),
        0 <= j < b.levels_of(s)[li].orders@.len(),
    ensures
        b.levels_of(s)[li].orders@[j].side == s,
        b.levels_of(s)[li].orders@[j].price == Some(b.levels_of(s)[li].price),
        b.levels_of(s)[li].orders@[j].order_type == OrderType::Limit,
        0 < b.levels_of(s)[li].orders@[j].remaining_quantity,
        b.levels_of(s)[li].orders@[j].remaining_quantity <= b.levels_of(
            s,
        )[li].orders@[j].quantity,
{
    assert(b.side_wf(s));
    assert(b.levels_of(s)[li].wf(b.instrument@, s));
    assert(resting_order_wf(b.levels_of(s)[li].orders@[j], b.instrument@, s, b.levels_of(s)[li].price));
}

/// A resting order occupies exactly one queue position: two positions
/// holding the same order id coincide.
pub proof fn lemma_resting_position_unique(
    b: OrderBook,
    s1: Side,
    li1: int,
    j1: int,
    s2: Side,
    li2: int,
    j2: int,
)
    requires
        b.inv(),
        0 <= li1 < b.levels_of(s1).len(),
        0 <= j1 < b.levels_of(s1)[li1].orders@.len(),
        0 <= li2 < b.levels_of(s2).len(),
        0 <= j2 < b.levels_of(s2)[li2].orders@.len(),
        b.levels_of(s1)[li1].orders@[j1].order_id == b.levels_of(s2)[li2].orders@[j2].order_id,
    ensures
        s1 == s2,
        li1 == li2,
        j1 == j2,
{
    let id = b.levels_of(s1)[li1].orders@[j1].order_id;
    let p1 = b.levels_of(s1)[li1].price;
    let p2 = b.levels_of(s2)[li2].price;
    assert(b.queues_indexed(s1));
    assert(b.queues_indexed(s2));
    assert(b.index_has_entry(id, s1, p1));
    assert(b.index_has_entry(id, s2, p2));
    let k1 = choose|k1: int|
        0 <= k1 < b.orders@.len() && b.orders@[k1] == (IndexEntry {
            order_id: id,
            side: s1,
            price: p1,
        });
    let k2 = choose|k2: int|
        0 <= k2 < b.orders@.len() && b.orders@[k2] == (IndexEntry {
            order_id: id,
            side: s2,
            price: p2,
        });
    assert(k1 == k2) by {
        if k1 < k2 {
            assert(b.orders@[k1].order_id != b.orders@[k2].order_id);
        }
        if k2 < k1 {
            assert(b.orders@[k2].order_id != b.orders@[k1].order_id);
        }
    };
    assert(s1 == s2 && p1 == p2);
    assert(li1 == li2) by {
        assert(b.side_wf(s1));
        if li1 < li2 {
            assert(better(s1, b.levels_of(s1)[li1].price, b.levels_of(s1)[li2].price));
        }
        if li2 < li1 {
            assert(better(s1, b.levels_of(s1)[li2].price, b.levels_of(s1)[li1].price));
        }
    };
    assert(j1 == j2) by {
        assert(b.levels_of(s1)[li1].wf(b.instrument@, s1));
        if j1 < j2 {
            assert(b.levels_of(s1)[li1].orders@[j1].order_id != b.levels_of(
                s1,
            )[li1].orders@[j2].order_id);
        }
        if j2 < j1 {
            assert(b.levels_of(s1)[li1].orders@[j2].order_id != b.levels_of(
                s1,
            )[li1].orders@[j1].order_id);
        }
    };
}

/// The id index agrees with the queues: an id is indexed exactly when it
/// rests in some queue, and the entry carries that queue's side and price.
pub proof fn lemma_index_agrees(b: OrderBook, id: u128)
    requires
        b.inv(),
        b.index_has(id),
    ensures
        exists|s: Side, li: int, j: int|
            0 <= li < b.levels_of(s).len() && 0 <= j < b.levels_of(s)[li].orders@.len() && (
            #[trigger] b.levels_of(s)[li].orders@[j]).order_id == id && b.index_has_entry(
                id,
                s,
                b.levels_of(s)[li].price,
            ),
{
    let k = choose|k: int| 0 <= k < b.orders@.len() && b.orders@[k].order_id == id;
    assert(b.index_entry_ok(b.orders@[k]));
    let e = b.orders@[k];
    let li = choose|li: int|
        0 <= li < b.levels_of(e.side).len() && b.levels_of(e.side)[li].price == e.price
            && b.levels_of(e.side)[li].contains_id(e.order_id);
    let j = choose|j: int|
        0 <= j < b.levels_of(e.side)[li].orders@.len() && b.levels_of(e.side)[li].orders@[j].order_id
            == id;
    assert(b.index_has_entry(id, e.side, b.levels_of(e.side)[li].price)) by {
        assert(b.queues_indexed(e.side));
    };
    assert(0 <= li < b.levels_of(e.side).len() && 0 <= j < b.levels_of(e.side)[li].orders@.len()
        && b.levels_of(e.side)[li].orders@[j].order_id == id && b.index_has_entry(
        id,
        e.side,
        b.levels_of(e.side)[li].price,
    ));
}

/// No price map contains an empty queue: every level holds at least one
/// order.
pub proof fn lemma_no_empty_level(b: OrderBook, s: Side, li: int)
    requires
        b.inv(),
        0 <= li < b.levels_of(s).len(),
    ensures
        b.levels_of(s)[li].orders@.len() > 0,
{
    assert(b.side_wf(s));
    assert(b.levels_of(s)[li].wf(b.instrument@, s));
}

/// Every trade executes at the maker's resting limit price: the maker was
/// resting on the opposite side at exactly the trade's price, and its own
/// limit price field carries that price.
pub proof fn lemma_trade_at_maker_limit_price(
    b0: OrderBook,
    o: Order,
    ts: Seq<Trade>,
    fs: Seq<Order>,
    fin: Order,
    b1: OrderBook,
    i: int,
)
    requires
        b0.inv(),
        submit_outcome(b0, o, ts, fs, fin, b1),
        0 <= i < ts.len(),
    ensures
        exists|li: int, j: int|
            0 <= li < b0.levels_of(opposite(o.side)).len() && 0 <= j < b0.levels_of(
                opposite(o.side),
            )[li].orders@.len() && (#[trigger] b0.levels_of(opposite(o.side))[li].orders@[j]).order_id
                == ts[i].maker_id() && b0.levels_of(opposite(o.side))[li].orders@[j].price == Some(
                ts[i].price,
            ),
{
    let s = opposite(o.side);
    assert(has_resting(b0, s, ts[i].price, ts[i].maker_id()));
    let li = choose|li: int|
        0 <= li < b0.levels_of(s).len() && b0.levels_of(s)[li].price == ts[i].price
            && b0.levels_of(s)[li].contains_id(ts[i].maker_id());
    let j = choose|j: int|
        0 <= j < b0.levels_of(s)[li].orders@.len() && b0.levels_of(s)[li].orders@[j].order_id
            == ts[i].maker_id();
    lemma_resting_order_wf(b0, s, li, j);
    assert(0 <= li < b0.levels_of(s).len() && 0 <= j < b0.levels_of(s)[li].orders@.len()
        && b0.levels_of(s)[li].orders@[j].order_id == ts[i].maker_id() && b0.levels_of(
        s,
    )[li].orders@[j].price == Some(ts[i].price));
}

/// Trade attribution follows the taker's side: a BUY taker's id lands in
/// `buy_order_id` and the maker's in `sell_order_id`; symmetrically for a
/// SELL taker.
pub proof fn lemma_trade_attribution(
    b0: OrderBook,
    o: Order,
    ts: Seq<Trade>,
    fs: Seq<Order>,
    fin: Order,
    b1: OrderBook,
    i: int,
)
    requires
        submit_outcome(b0, o, ts, fs, fin, b1),
        0 <= i < ts.len(),
    ensures
        ts[i].taker_side == o.side,
        o.side == Side::Buy ==> ts[i].buy_order_id == o.order_id,
        o.side == Side::Sell ==> ts[i].sell_order_id == o.order_id,
        ts[i].quantity > 0,
{
}

/// The trades of one submission never exceed the order's original
/// quantity, and reaching it means the order finished FILLED.
pub proof fn lemma_quantity_conservation(
    b0: OrderBook,
    o: Order,
    ts: Seq<Trade>,
    fs: Seq<Order>,
    fin: Order,
    b1: OrderBook,
)
    requires
        submit_outcome(b0, o, ts, fs, fin, b1),
        o.fresh(),
        o.quantity > 0,
    ensures
        trades_qty_sum(ts) <= o.quantity,
        trades_qty_sum(ts) == o.quantity ==> fin.status == OrderStatus::Filled,
        trades_qty_sum(ts) == o.quantity - fin.remaining_quantity,
{
    if trades_qty_sum(ts) == o.quantity {
        assert(fin.remaining_quantity == 0);
        assert(ts.len() > 0) by {
            if ts.len() == 0 {
                assert(fin == o);
            }
        };
    }
}

/// Matching is strictly best-price-first: along one submission's trade
/// list the price never improves, and no level that still rests on the
/// opposite side afterwards is better than any executed price.
pub proof fn lemma_best_price_first(
    b0: OrderBook,
    o: Order,
    ts: Seq<Trade>,
    fs: Seq<Order>,
    fin: Order,
    b1: OrderBook,
    i: int,
    j: int,
)
    requires
        submit_outcome(b0, o, ts, fs, fin, b1),
        0 <= i <= j < ts.len(),
    ensures
        !better(opposite(o.side), ts[j].price, ts[i].price),
        forall|li: int|
            0 <= li < b1.levels_of(opposite(o.side)).len() ==> !better(
                opposite(o.side),
                (#[trigger] b1.levels_of(opposite(o.side))[li]).price,
                ts[i].price,
            ),
{
}

/// Every pre-submission opposite level meets one of three fates, visible
/// in the trade list: untouched (no trade at its price), consumed whole —
/// one contiguous run of trades taking the queue head-first, each for its
/// maker's whole remaining quantity — or consumed up to one final partial
/// maker, with exactly the surviving suffix left on the book. In
/// particular the k-th trade at a price executes against the k-th order
/// of that level's queue: arrival order A then B means A matches first.
pub proof fn lemma_level_verdicts(
    b0: OrderBook,
    o: Order,
    ts: Seq<Trade>,
    fs: Seq<Order>,
    fin: Order,
    b1: OrderBook,
    li: int,
)
    requires
        submit_outcome(b0, o, ts, fs, fin, b1),
        0 <= li < b0.levels_of(opposite(o.side)).len(),
    ensures
        crate::orderbook::level_outcome(
            ts,
            b0.levels_of(opposite(o.side))[li],
            b1.levels_of(opposite(o.side)),
        ),
{
}

/// No trade invents volume: its maker rests at a queue position of the
/// pre-book level at exactly the trade's price, with at least the traded
/// quantity still remaining.
pub proof fn lemma_trade_bounded_by_maker(
    b0: OrderBook,
    o: Order,
    ts: Seq<Trade>,
    fs: Seq<Order>,
    fin: Order,
    b1: OrderBook,
    i: int,
)
    requires
        b0.inv(),
        submit_outcome(b0, o, ts, fs, fin, b1),
        0 <= i < ts.len(),
    ensures
        exists|li: int, k: int|
            0 <= li < b0.levels_of(opposite(o.side)).len() && b0.levels_of(
                opposite(o.side),
            )[li].price == ts[i].price && 0 <= k < b0.levels_of(opposite(o.side))[li].orders@.len()
                && (#[trigger] b0.levels_of(opposite(o.side))[li].orders@[k]).order_id
                == ts[i].maker_id() && ts[i].quantity <= b0.levels_of(
                opposite(o.side),
            )[li].orders@[k].remaining_quantity,
{
    let opp = opposite(o.side);
    assert(has_resting(b0, opp, ts[i].price, ts[i].maker_id()));
    let li = choose|li: int|
        0 <= li < b0.levels_of(opp).len() && b0.levels_of(opp)[li].price == ts[i].price
            && b0.levels_of(opp)[li].contains_id(ts[i].maker_id());
    let l = b0.levels_of(opp)[li];
    let q = l.orders@;
    assert(crate::orderbook::level_outcome(ts, l, b1.levels_of(opp)));
    reveal(crate::orderbook::level_fully_consumed);
    if crate::orderbook::level_untouched(ts, l, b1.levels_of(opp)) {
        assert(ts[i].price != l.price);
    } else if crate::orderbook::level_fully_consumed(ts, l, b1.levels_of(opp)) {
        let start = choose|start: int|
            crate::orderbook::fully_consumed_at(ts, l, b1.levels_of(opp), start);
        assert(start <= i < start + q.len()) by {
            if !(start <= i < start + q.len()) {
                assert(ts[i].price != l.price);
            }
        };
        let k = i - start;
        assert(ts[start + k].maker_id() == q[k].order_id && ts[start + k].quantity
            <= q[k].remaining_quantity);
        assert(0 <= li < b0.levels_of(opp).len() && b0.levels_of(opp)[li].price == ts[i].price
            && 0 <= k < b0.levels_of(opp)[li].orders@.len() && b0.levels_of(
            opp,
        )[li].orders@[k].order_id == ts[i].maker_id() && ts[i].quantity <= b0.levels_of(
            opp,
        )[li].orders@[k].remaining_quantity);
    } else {
        let (start, n, c): (int, int, int) = choose|start: int, n: int, c: int|
            crate::orderbook::partially_consumed_at(ts, l, b1.levels_of(opp), start, n, c);
        assert(start <= i < start + n) by {
            if i < start {
                assert(ts[i].price != l.price);
            }
        };
        let k = i - start;
        assert(ts[start + k].maker_id() == q[k].order_id && ts[start + k].quantity
            <= q[k].remaining_quantity);
        assert(0 <= li < b0.levels_of(opp).len() && b0.levels_of(opp)[li].price == ts[i].price
            && 0 <= k < b0.levels_of(opp)[li].orders@.len() && b0.levels_of(
            opp,
        )[li].orders@[k].order_id == ts[i].maker_id() && ts[i].quantity <= b0.levels_of(
            opp,
        )[li].orders@[k].remaining_quantity);
    }
}

/// Strict FIFO at each price level: of two same-price trades in one
/// submission, the earlier one's maker rested strictly closer to the head
/// of that level's queue — under arrival order A then B at one
/// (side, price), A is matched before B.
pub proof fn lemma_fifo_within_price_level(
    b0: OrderBook,
    o: Order,
    ts: Seq<Trade>,
    fs: Seq<Order>,
    fin: Order,
    b1: OrderBook,
    i: int,
    j: int,
)
    requires
        submit_outcome(b0, o, ts, fs, fin, b1),
        0 <= i < j < ts.len(),
        ts[i].price == ts[j].price,
    ensures
        exists|li: int, j1: int, j2: int|
            crate::orderbook::fifo_at(b0, opposite(o.side), ts[i], ts[j], li, j1, j2),
{
}

/// An order that did not fill left no crossing liquidity behind: once a
/// submission returns with remaining quantity, every opposite level is
/// outside its limit (for a MARKET order, the opposite side is empty).
pub proof fn lemma_remainder_means_no_cross(
    b0: OrderBook,
    o: Order,
    ts: Seq<Trade>,
    fs: Seq<Order>,
    fin: Order,
    b1: OrderBook,
)
    requires
        submit_outcome(b0, o, ts, fs, fin, b1),
        o.type_price_consistent(),
        fin.remaining_quantity > 0,
    ensures
        forall|li: int|
            0 <= li < b1.levels_of(opposite(o.side)).len() ==> !crosses(
                o,
                (#[trigger] b1.levels_of(opposite(o.side))[li]).price,
            ),
        o.order_type == OrderType::Market ==> b1.levels_of(opposite(o.side)).len() == 0,
{
    if o.order_type == OrderType::Market && b1.levels_of(opposite(o.side)).len() > 0 {
        assert(crosses(o, b1.levels_of(opposite(o.side))[0].price));
        assert(!crosses(o, b1.levels_of(opposite(o.side))[0].price));
    }
}

/// Books that agree level by level produce identical snapshots.
pub proof fn lemma_same_levels_same_display(
    a: OrderBook,
    b: OrderBook,
    da: crate::utils::OrderBookDisplay,
    db: crate::utils::OrderBookDisplay,
)
    requires
        same_levels(a.bids@, b.bids@),
        same_levels(a.asks@, b.asks@),
        OrderBook::display_of(a, da),
        OrderBook::display_of(b, db),
    ensures
        da.bids@ == db.bids@,
        da.asks@ == db.asks@,
{
    assert forall|i: int| 0 <= i < da.bids@.len() implies da.bids@[i] == db.bids@[i] by {
        assert(a.bids@[i].orders@ == b.bids@[i].orders@);
    };
    assert forall|i: int| 0 <= i < da.asks@.len() implies da.asks@[i] == db.asks@[i] by {
        assert(a.asks@[i].orders@ == b.asks@[i].orders@);
    };
    assert(da.bids@ =~= db.bids@);
    assert(da.asks@ =~= db.asks@);
}

/// Round trip: submitting a LIMIT order that crosses nothing and then
/// cancelling it leaves both sides of the book — levels, queues and the id
/// index — exactly as they were before the submission.
#[verifier::rlimit(100)]
pub proof fn lemma_submit_cancel_round_trip(
    b0: OrderBook,
    o: Order,
    ts: Seq<Trade>,
    fs: Seq<Order>,
    fin: Order,
    b1: OrderBook,
    removed: Order,
    b2: OrderBook,
)
    requires
        b0.inv(),
        o.fresh(),
        o.order_type == OrderType::Limit,
        o.type_price_consistent(),
        o.remaining_quantity > 0,
        !b0.index_has(o.order_id),
        b0.levels_of(opposite(o.side)).len() == 0 || !crosses(
            o,
            b0.levels_of(opposite(o.side))[0].price,
        ),
        submit_outcome(b0, o, ts, fs, fin, b1),
        cancel_outcome(b1, o.order_id, removed, b2),
    ensures
        same_levels(b2.bids@, b0.bids@),
        same_levels(b2.asks@, b0.asks@),
        b2.orders@ == b0.orders@,
{
    let own = o.side;
    let opp = opposite(o.side);
    let p = o.price.unwrap();
    let id = o.order_id;

    // a non-crossing submission produces no trades and rests exactly once
    assert(ts.len() == 0);
    assert(fin == o);
    let e0 = IndexEntry { order_id: id, side: own, price: p };
    assert(b1.orders@ == b0.orders@.push(e0));
    assert(b1.levels_of(opp) == b0.levels_of(opp));
    assert(crate::orderbook::rest_into(b0.levels_of(own), o, p, b1.levels_of(own)));
    assert(b1.inv());

    // the cancel removed precisely the pushed index entry
    let kc = choose|kc: int|
        0 <= kc < b1.orders@.len() && b1.orders@[kc] == (IndexEntry {
            order_id: id,
            side: removed.side,
            price: removed.price.unwrap(),
        }) && b2.orders@ == b1.orders@.remove(kc);
    let last = b0.orders@.len() as int;
    assert(b1.orders@[last] == e0);
    assert(kc == last) by {
        if kc < last {
            assert(b1.orders@[kc].order_id != b1.orders@[last].order_id);
        }
    };
    assert(removed.side == own && removed.price.unwrap() == p);
    assert(b2.orders@ =~= b0.orders@);

    // the cancel scrubbed precisely the rested order
    assert(crate::orderbook::removed_from_side(
        b1.levels_of(own),
        id,
        removed,
        b2.levels_of(own),
    ));
    let (lic, jc): (int, int) = choose|lic: int, jc: int|
        crate::orderbook::removed_at(b1.levels_of(own), id, removed, b2.levels_of(own), lic, jc);
    assert(crate::orderbook::removed_at(b1.levels_of(own), id, removed, b2.levels_of(own), lic, jc));

    if exists|li0: int|
        0 <= li0 < b0.levels_of(own).len() && b0.levels_of(own)[li0].price == p {
        // the order joined an existing level's tail
        assert(exists|li0: int|
            crate::orderbook::rested_at_existing(b0.levels_of(own), o, p, b1.levels_of(own), li0));
        let li0 = choose|li0: int|
            crate::orderbook::rested_at_existing(b0.levels_of(own), o, p, b1.levels_of(own), li0);
        assert(crate::orderbook::rested_at_existing(b0.levels_of(own), o, p, b1.levels_of(own), li0));
        let q0 = b0.levels_of(own)[li0].orders@;
        let jlast = q0.len() as int;
        assert(b1.levels_of(own)[li0].orders@[jlast] == o);
        lemma_resting_position_unique(b1, own, lic, jc, own, li0, jlast);
        assert(lic == li0 && jc == jlast);
        assert(q0.len() > 0) by {
            assert(b0.side_wf(own));
            assert(b0.levels_of(own)[li0].wf(b0.instrument@, own));
        };
        assert(b1.levels_of(own)[li0].orders@.len() != 1);
        assert(b2.levels_of(own)[li0].orders@ =~= q0) by {
            assert(b2.levels_of(own)[li0].orders@ == b1.levels_of(own)[li0].orders@.remove(jlast));
        };
        assert(same_levels(b2.levels_of(own), b0.levels_of(own))) by {
            assert forall|i: int| 0 <= i < b2.levels_of(own).len() implies (#[trigger] b2.levels_of(
                own,
            )[i]).price == b0.levels_of(own)[i].price && b2.levels_of(own)[i].orders@
                == b0.levels_of(own)[i].orders@ by {
                if i != li0 {
                    assert(b2.levels_of(own)[i] == b1.levels_of(own)[i]);
                    assert(b1.levels_of(own)[i] == b0.levels_of(own)[i]);
                }
            };
        };
    } else {
        // the order opened a fresh singleton level
        assert(exists|kpos: int|
            crate::orderbook::rested_at_new(b0.levels_of(own), o, p, b1.levels_of(own), kpos));
        let kpos = choose|kpos: int|
            crate::orderbook::rested_at_new(b0.levels_of(own), o, p, b1.levels_of(own), kpos);
        assert(crate::orderbook::rested_at_new(b0.levels_of(own), o, p, b1.levels_of(own), kpos));
        assert(b1.levels_of(own)[kpos].orders@[0] == o);
        lemma_resting_position_unique(b1, own, lic, jc, own, kpos, 0);
        assert(lic == kpos && jc == 0);
        assert(b1.levels_of(own)[kpos].orders@.len() == 1);
        assert(b2.levels_of(own) == b1.levels_of(own).remove(kpos));
        assert(same_levels(b2.levels_of(own), b0.levels_of(own))) by {
            assert(b2.levels_of(own).len() == b0.levels_of(own).len());
            assert forall|i: int| 0 <= i < b2.levels_of(own).len() implies (#[trigger] b2.levels_of(
                own,
            )[i]).price == b0.levels_of(own)[i].price && b2.levels_of(own)[i].orders@
                == b0.levels_of(own)[i].orders@ by {
                if i < kpos {
                    assert(b2.levels_of(own)[i] == b1.levels_of(own)[i]);
                    assert(b1.levels_of(own)[i] == b0.levels_of(own)[i]);
                } else {
                    assert(b2.levels_of(own)[i] == b1.levels_of(own)[i + 1]);
                    assert(b1.levels_of(own)[i + 1] == b0.levels_of(own)[i]);
                }
            };
        };
    }
    assert(b2.levels_of(opp) == b0.levels_of(opp));
    assert(same_levels(b2.levels_of(opp), b0.levels_of(opp)));
    assert(opposite(own) == opp && opposite(opp) == own);
    if own == Side::Buy {
        assert(same_levels(b2.bids@, b0.bids@));
        assert(same_levels(b2.asks@, b0.asks@));
    } else {
        assert(same_levels(b2.asks@, b0.asks@));
        assert(same_levels(b2.bids@, b0.bids@));
    }
}

} // verus!
