//! The per-instrument limit order book.
//!
//! Each side holds its non-empty price levels best-first — bids by strictly
//! descending price, asks by strictly ascending price — and each level keeps
//! its resting orders in FIFO order of arrival. The canonical order records
//! live in the level queues; a flat id index maps every resting order id to
//! its side and price, which is what makes cancel a lookup instead of a
//! search of both sides.

use vstd::prelude::*;
use crate::order::Order;
use crate::trade::Trade;
use crate::utils::{MatchingEngineError, OrderBookDisplay, OrderStatus, OrderType, PriceLevel, Side, opposite};

verus! {

/// `p1` is strictly better than `p2` for a resting order of side `side`:
/// a higher bid buys first, a lower ask sells first.
pub open spec fn better(side: Side, p1: u64, p2: u64) -> bool {
    match side {
        Side::Buy => p1 > p2,
        Side::Sell => p1 < p2,
    }
}

/// An incoming order is willing to trade at opposite-side price `p`:
/// a MARKET order crosses every price, a LIMIT order only prices at least
/// as good as its limit.
pub open spec fn crosses(o: Order, p: u64) -> bool {
    match o.price {
        Option::None => true,
        Option::Some(lim) => match o.side {
            Side::Buy => p <= lim,
            Side::Sell => p >= lim,
        },
    }
}

/// What holds of every order resting in a queue: it is a LIMIT order of the
/// level's side and price, on the book's instrument, with something left to
/// fill and a status that reflects partial execution at most.
pub open spec fn resting_order_wf(o: Order, instrument: Seq<char>, side: Side, price: u64) -> bool {
    &&& o.side == side
    &&& o.price == Some(price)
    &&& o.order_type == OrderType::Limit
    &&& 0 < o.remaining_quantity
    &&& o.remaining_quantity <= o.quantity
    &&& o.instrument@ == instrument
    &&& (o.status == OrderStatus::New || o.status == OrderStatus::PartiallyFilled)
}

/// Summed remaining quantity of a queue.
pub open spec fn queue_volume(q: Seq<Order>) -> int
    decreases q.len(),
{
    if q.len() == 0 {
        0
    } else {
        q[0].remaining_quantity + queue_volume(q.skip(1))
    }
}

proof fn lemma_queue_volume_push(q: Seq<Order>, o: Order)
    ensures
        queue_volume(q.push(o)) == queue_volume(q) + o.remaining_quantity,
    decreases q.len(),
{
    if q.len() == 0 {
        assert(q.push(o)[0] == o);
        assert(q.push(o).skip(1) =~= Seq::<Order>::empty());
        assert(queue_volume(Seq::<Order>::empty()) == 0);
    } else {
        lemma_queue_volume_push(q.skip(1), o);
        assert(q.push(o)[0] == q[0]);
        assert(q.push(o).skip(1) =~= q.skip(1).push(o));
    }
}

proof fn lemma_queue_volume_bounds(q: Seq<Order>)
    ensures
        0 <= queue_volume(q) <= q.len() * (u64::MAX as int),
        (forall|j: int| 0 <= j < q.len() ==> (#[trigger] q[j]).remaining_quantity > 0) && q.len()
            > 0 ==> queue_volume(q) > 0,
    decreases q.len(),
{
    if q.len() > 0 {
        lemma_queue_volume_bounds(q.skip(1));
        assert forall|j: int| 0 <= j < q.skip(1).len() && (forall|j2: int|
            0 <= j2 < q.len() ==> (#[trigger] q[j2]).remaining_quantity > 0) implies (
        #[trigger] q.skip(1)[j]).remaining_quantity > 0 by {
            assert(q.skip(1)[j] == q[j + 1]);
        };
        assert(queue_volume(q) <= q.len() * (u64::MAX as int)) by (nonlinear_arith)
            requires
                queue_volume(q) == q[0].remaining_quantity + queue_volume(q.skip(1)),
                q[0].remaining_quantity <= u64::MAX as int,
                queue_volume(q.skip(1)) <= (q.len() - 1) * (u64::MAX as int),
                q.len() >= 1,
        ;
    }
}

/// Some order in `q` carries this id.
pub open spec fn seq_has_id(q: Seq<Order>, id: u128) -> bool {
    exists|j: int| 0 <= j < q.len() && q[j].order_id == id
}

/// Summed quantity of a trade list.
pub open spec fn trades_qty_sum(ts: Seq<Trade>) -> int
    decreases ts.len(),
{
    if ts.len() == 0 {
        0
    } else {
        trades_qty_sum(ts.drop_last()) + ts.last().quantity
    }
}

proof fn lemma_trades_qty_sum_concat(a: Seq<Trade>, b: Seq<Trade>)
    ensures
        trades_qty_sum(a + b) == trades_qty_sum(a) + trades_qty_sum(b),
    decreases b.len(),
{
    if b.len() == 0 {
        assert(a + b =~= a);
    } else {
        lemma_trades_qty_sum_concat(a, b.drop_last());
        assert((a + b).drop_last() =~= a + b.drop_last());
        assert((a + b).last() == b.last());
    }
}

/// The trade records one execution of `taker` against the resting order
/// `maker_id` at the maker's price: the taker's side names the aggressor and
/// routes the two ids into the buy and sell slots.
pub open spec fn trade_matches(
    t: Trade,
    taker: Order,
    maker_id: u128,
    price: u64,
    inst: Seq<char>,
) -> bool {
    &&& t.price == price
    &&& t.taker_side == taker.side
    &&& t.quantity > 0
    &&& t.instrument@ == inst
    &&& if taker.side == Side::Buy {
        t.buy_order_id == taker.order_id && t.sell_order_id == maker_id
    } else {
        t.sell_order_id == taker.order_id && t.buy_order_id == maker_id
    }
}

/// One price level: the FIFO queue of orders resting at a single
/// (side, price). The head is next to match.
#[derive(Clone, Debug)]
pub struct Level {
    pub price: u64,
    pub orders: Vec<Order>,
}

impl Level {
    pub open spec fn wf(self, instrument: Seq<char>, side: Side) -> bool {
        &&& self.orders@.len() > 0
        &&& forall|j: int|
            0 <= j < self.orders@.len() ==> resting_order_wf(
                #[trigger] self.orders@[j],
                instrument,
                side,
                self.price,
            )
        &&& forall|j1: int, j2: int|
            0 <= j1 < j2 < self.orders@.len() ==> self.orders@[j1].order_id
                != self.orders@[j2].order_id
    }

    pub open spec fn contains_id(self, id: u128) -> bool {
        exists|j: int| 0 <= j < self.orders@.len() && self.orders@[j].order_id == id
    }
}

/// One id-index entry: where (side, price) the order with this id rests.
#[derive(Clone, Copy, Debug, PartialEq, Eq, Structural)]
pub struct IndexEntry {
    pub order_id: u128,
    pub side: Side,
    pub price: u64,
}

pub struct OrderBook {
    pub instrument: String,
    pub bids: Vec<Level>,
    pub asks: Vec<Level>,
    /// id index: one entry per resting order
    pub orders: Vec<IndexEntry>,
}

pub open spec fn sorted_best_first(side: Side, levels: Seq<Level>) -> bool {
    forall|i: int, j: int|
        0 <= i < j < levels.len() ==> better(side, levels[i].price, levels[j].price)
}

impl OrderBook {
    pub open spec fn levels_of(self, s: Side) -> Seq<Level> {
        match s {
            Side::Buy => self.bids@,
            Side::Sell => self.asks@,
        }
    }

    /// The id index holds an entry for `id`.
    pub open spec fn index_has(self, id: u128) -> bool {
        exists|k: int| 0 <= k < self.orders@.len() && self.orders@[k].order_id == id
    }

    /// The id index holds exactly the entry (id, s, p).
    pub open spec fn index_has_entry(self, id: u128, s: Side, p: u64) -> bool {
        exists|k: int|
            0 <= k < self.orders@.len() && self.orders@[k] == (IndexEntry {
                order_id: id,
                side: s,
                price: p,
            })
    }

    /// The entry points at a level that exists and holds the order.
    pub open spec fn index_entry_ok(self, e: IndexEntry) -> bool {
        exists|i: int|
            0 <= i < self.levels_of(e.side).len() && self.levels_of(e.side)[i].price == e.price
                && self.levels_of(e.side)[i].contains_id(e.order_id)
    }

    pub open spec fn side_wf(self, s: Side) -> bool {
        &&& sorted_best_first(s, self.levels_of(s))
        &&& forall|i: int|
            0 <= i < self.levels_of(s).len() ==> (#[trigger] self.levels_of(s)[i]).wf(
                self.instrument@,
                s,
            )
    }

    /// Every queued order is indexed under its side and price.
    pub open spec fn queues_indexed(self, s: Side) -> bool {
        forall|i: int, j: int|
            0 <= i < self.levels_of(s).len() && 0 <= j < self.levels_of(s)[i].orders@.len()
                ==> self.index_has_entry(
                (#[trigger] self.levels_of(s)[i].orders@[j]).order_id,
                s,
                self.levels_of(s)[i].price,
            )
    }

    /// The book invariant: sorted non-empty well-formed levels on both
    /// sides, and a duplicate-free id index that agrees with the queues in
    /// both directions. Together with sortedness this puts every resting
    /// order with remaining quantity in exactly one queue position.
    pub open spec fn inv(self) -> bool {
        &&& self.side_wf(Side::Buy)
        &&& self.side_wf(Side::Sell)
        &&& forall|k1: int, k2: int|
            0 <= k1 < k2 < self.orders@.len() ==> self.orders@[k1].order_id
                != self.orders@[k2].order_id
        &&& forall|k: int|
            0 <= k < self.orders@.len() ==> self.index_entry_ok(#[trigger] self.orders@[k])
        &&& self.queues_indexed(Side::Buy)
        &&& self.queues_indexed(Side::Sell)
    }

    pub fn new(instrument: String) -> (r: OrderBook)
        ensures
            r.inv(),
            r.instrument == instrument,
            r.bids@ =~= Seq::<Level>::empty(),
            r.asks@ =~= Seq::<Level>::empty(),
            r.orders@ =~= Seq::<IndexEntry>::empty(),
    {
        OrderBook { instrument, bids: Vec::new(), asks: Vec::new(), orders: Vec::new() }
    }

    /// The opposite-side prices the incoming order is willing to trade at,
    /// best-first. Because each side is sorted best-first and crossing is
    /// downward-closed in that order, this is exactly the longest crossing
    /// prefix of the opposite side's prices.
    pub fn get_matchable_prices(&self, incoming: &Order) -> (r: Vec<u64>)
        requires
            self.inv(),
        ensures
            r@.len() <= self.levels_of(opposite(incoming.side)).len(),
            forall|i: int|
                0 <= i < r@.len() ==> r@[i] == self.levels_of(opposite(incoming.side))[i].price
                    && crosses(*incoming, r@[i]),
            r@.len() < self.levels_of(opposite(incoming.side)).len() ==> !crosses(
                *incoming,
                self.levels_of(opposite(incoming.side))[r@.len() as int].price,
            ),
    {
        let levels: &Vec<Level> = match incoming.side {
            Side::Buy => &self.asks,
            Side::Sell => &self.bids,
        };
        let is_buy: bool = incoming.side == Side::Buy;
        let mut prices: Vec<u64> = Vec::new();
        let n: usize = levels.len();
        let mut i: usize = 0;
        while i < n
            invariant_except_break
                n == levels@.len(),
                levels@ == self.levels_of(opposite(incoming.side)),
                is_buy == (incoming.side == Side::Buy),
                0 <= i <= n,
                prices@.len() == i,
                forall|k: int|
                    0 <= k < i ==> prices@[k] == levels@[k].price && crosses(*incoming, prices@[k]),
            ensures
                prices@.len() <= levels@.len(),
                levels@ == self.levels_of(opposite(incoming.side)),
                forall|k: int|
                    0 <= k < prices@.len() ==> prices@[k] == levels@[k].price && crosses(
                        *incoming,
                        prices@[k],
                    ),
                prices@.len() < levels@.len() ==> !crosses(
                    *incoming,
                    levels@[prices@.len() as int].price,
                ),
            decreases n - i,
        {
            let p: u64 = levels[i].price;
            let cross: bool = match incoming.price {
                Option::None => true,
                Option::Some(lim) => if is_buy {
                    p <= lim
                } else {
                    p >= lim
                },
            };
            if cross {
                prices.push(p);
                i = i + 1;
            } else {
                break ;
            }
        }
        prices
    }
}

/// `s` holds an entry with this order id.
pub open spec fn index_seq_has(s: Seq<IndexEntry>, id: u128) -> bool {
    exists|k: int| 0 <= k < s.len() && s[k].order_id == id
}

/// `s` holds exactly this entry.
pub open spec fn index_seq_has_entry(s: Seq<IndexEntry>, e: IndexEntry) -> bool {
    exists|k: int| 0 <= k < s.len() && s[k] == e
}

/// `ix1` is `ix0` with precisely the entries of the consumed orders gone:
/// every surviving entry comes from `ix0`, every `ix0` entry whose id was
/// not consumed survives, and no consumed id remains.
pub open spec fn index_minus_ids(
    ix0: Seq<IndexEntry>,
    consumed: Seq<Order>,
    ix1: Seq<IndexEntry>,
) -> bool {
    &&& forall|k: int| 0 <= k < ix1.len() ==> index_seq_has_entry(ix0, #[trigger] ix1[k])
    &&& forall|k0: int|
        0 <= k0 < ix0.len() && !seq_has_id(consumed, ix0[k0].order_id) ==> index_seq_has_entry(
            ix1,
            #[trigger] ix0[k0],
        )
    &&& forall|j: int|
        0 <= j < consumed.len() ==> !index_seq_has(ix1, (#[trigger] consumed[j]).order_id)
}

/// Drop the first entry carrying `id` from the index, reporting whether one
/// was there.
fn index_remove(ix: &mut Vec<IndexEntry>, id: u128) -> (found: bool)
    ensures
        found <==> index_seq_has(old(ix)@, id),
        found ==> exists|k: int|
            0 <= k < old(ix)@.len() && old(ix)@[k].order_id == id && final(ix)@ == old(
                ix,
            )@.remove(k),
        !found ==> final(ix)@ == old(ix)@,
{
    let n: usize = ix.len();
    let mut k: usize = 0;
    while k < n
        invariant
            ix@ == old(ix)@,
            n == ix@.len(),
            0 <= k <= n,
            forall|k2: int| 0 <= k2 < k ==> ix@[k2].order_id != id,
        decreases n - k,
    {
        if ix[k].order_id == id {
            ix.remove(k);
            return true;
        }
        k = k + 1;
    }
    false
}

/// `l` is (a copy of) one of the levels in `ls`.
pub open spec fn level_in(ls: Seq<Level>, l: Level) -> bool {
    exists|k: int| 0 <= k < ls.len() && ls[k] == l
}

/// The makers of `t1` and `t2` rested in one queue of `b` — the level at
/// their shared price on side `s` — with `t1`'s maker at position `j1`,
/// strictly ahead of `t2`'s maker at `j2`.
pub open spec fn fifo_at(
    b: OrderBook,
    s: Side,
    t1: Trade,
    t2: Trade,
    li: int,
    j1: int,
    j2: int,
) -> bool {
    &&& 0 <= li < b.levels_of(s).len()
    &&& b.levels_of(s)[li].price == t1.price
    &&& 0 <= j1 < j2 < b.levels_of(s)[li].orders@.len()
    &&& b.levels_of(s)[li].orders@[j1].order_id == t1.maker_id()
    &&& b.levels_of(s)[li].orders@[j2].order_id == t2.maker_id()
}

/// Strict FIFO at a price level: the earlier trade's maker sat closer to
/// the head of the queue the two makers shared.
pub open spec fn fifo_pair(b: OrderBook, s: Side, t1: Trade, t2: Trade) -> bool {
    exists|li: int, j1: int, j2: int| fifo_at(b, s, t1, t2, li, j1, j2)
}

/// An order with this id rests somewhere on side `s` at price `p` of `b`.
pub open spec fn has_resting(b: OrderBook, s: Side, p: u64, id: u128) -> bool {
    exists|li: int|
        0 <= li < b.levels_of(s).len() && b.levels_of(s)[li].price == p && b.levels_of(
            s,
        )[li].contains_id(id)
}

/// Two index subtractions in a row subtract the concatenation.
proof fn lemma_index_minus_compose(
    ix0: Seq<IndexEntry>,
    c1: Seq<Order>,
    ix1: Seq<IndexEntry>,
    c2: Seq<Order>,
    ix2: Seq<IndexEntry>,
)
    requires
        index_minus_ids(ix0, c1, ix1),
        index_minus_ids(ix1, c2, ix2),
    ensures
        index_minus_ids(ix0, c1 + c2, ix2),
{
    assert forall|k: int| 0 <= k < ix2.len() implies index_seq_has_entry(
        ix0,
        #[trigger] ix2[k],
    ) by {
        assert(index_seq_has_entry(ix1, ix2[k]));
        let k1 = choose|k1: int| 0 <= k1 < ix1.len() && ix1[k1] == ix2[k];
        assert(index_seq_has_entry(ix0, ix1[k1]));
    };
    assert forall|k0: int|
        0 <= k0 < ix0.len() && !seq_has_id(c1 + c2, ix0[k0].order_id) implies index_seq_has_entry(
        ix2,
        #[trigger] ix0[k0],
    ) by {
        assert(!seq_has_id(c1, ix0[k0].order_id)) by {
            if seq_has_id(c1, ix0[k0].order_id) {
                let j = choose|j: int| 0 <= j < c1.len() && c1[j].order_id == ix0[k0].order_id;
                assert((c1 + c2)[j] == c1[j]);
            }
        };
        assert(index_seq_has_entry(ix1, ix0[k0]));
        let k1 = choose|k1: int| 0 <= k1 < ix1.len() && ix1[k1] == ix0[k0];
        assert(!seq_has_id(c2, ix1[k1].order_id)) by {
            if seq_has_id(c2, ix1[k1].order_id) {
                let j = choose|j: int| 0 <= j < c2.len() && c2[j].order_id == ix1[k1].order_id;
                assert((c1 + c2)[c1.len() + j] == c2[j]);
            }
        };
        assert(index_seq_has_entry(ix2, ix1[k1]));
    };
    assert forall|j: int| 0 <= j < (c1 + c2).len() implies !index_seq_has(
        ix2,
        ((c1 + c2)[j]).order_id,
    ) by {
        if j < c1.len() {
            assert((c1 + c2)[j] == c1[j]);
            if index_seq_has(ix2, c1[j].order_id) {
                let k = choose|k: int| 0 <= k < ix2.len() && ix2[k].order_id == c1[j].order_id;
                assert(index_seq_has_entry(ix1, ix2[k]));
                let k1 = choose|k1: int| 0 <= k1 < ix1.len() && ix1[k1] == ix2[k];
                assert(index_seq_has(ix1, c1[j].order_id));
            }
        } else {
            assert((c1 + c2)[j] == c2[j - c1.len()]);
        }
    };
}

/// `fin` joined the tail of the existing level `li` at price `p`.
pub open spec fn rested_at_existing(
    levels0: Seq<Level>,
    fin: Order,
    p: u64,
    levels1: Seq<Level>,
    li: int,
) -> bool {
    &&& 0 <= li < levels0.len()
    &&& levels0[li].price == p
    &&& levels1.len() == levels0.len()
    &&& forall|i: int| 0 <= i < levels0.len() && i != li ==> levels1[i] == levels0[i]
    &&& levels1[li].price == p
    &&& levels1[li].orders@ == levels0[li].orders@.push(fin)
}

/// `fin` opened a fresh singleton level at position `k` and price `p`.
pub open spec fn rested_at_new(
    levels0: Seq<Level>,
    fin: Order,
    p: u64,
    levels1: Seq<Level>,
    k: int,
) -> bool {
    &&& 0 <= k <= levels0.len()
    &&& levels1.len() == levels0.len() + 1
    &&& forall|i: int| 0 <= i < k ==> levels1[i] == levels0[i]
    &&& forall|i: int| k < i < levels1.len() ==> levels1[i] == levels0[i - 1]
    &&& levels1[k].price == p
    &&& levels1[k].orders@.len() == 1
    &&& levels1[k].orders@[0] == fin
}

/// `p` is the price of one of the first `d` levels.
pub open spec fn price_among(levels: Seq<Level>, d: int, p: u64) -> bool {
    exists|li: int| 0 <= li < d && li < levels.len() && levels[li].price == p
}

/// Trades [start, start+n) of `ts` consume the head of queue `q` at price
/// `p`: the k-th of them executes against the k-th resting order, the
/// first `c` take their maker's whole remaining quantity, and a final
/// (c+1)-th takes no more than its maker still had.
pub open spec fn batch_consumes(
    ts: Seq<Trade>,
    start: int,
    n: int,
    c: int,
    q: Seq<Order>,
    p: u64,
) -> bool {
    &&& 0 <= start
    &&& start + n <= ts.len()
    &&& 1 <= n <= q.len()
    &&& c <= n <= c + 1
    &&& forall|k: int|
        0 <= k < n ==> (#[trigger] ts[start + k]).price == p && ts[start + k].maker_id()
            == q[k].order_id && ts[start + k].quantity <= q[k].remaining_quantity
    &&& forall|k: int| 0 <= k < c ==> (#[trigger] ts[start + k]).quantity == q[k].remaining_quantity
}

/// No trade touched this level; it stands unchanged among `opp1`.
pub open spec fn level_untouched(ts: Seq<Trade>, l: Level, opp1: Seq<Level>) -> bool {
    &&& forall|j: int| 0 <= j < ts.len() ==> (#[trigger] ts[j]).price != l.price
    &&& level_in(opp1, l)
}

/// The run of trades starting at `start` consumed the level's whole
/// queue, head-first and each in full; no other trade carries its price
/// and no level at its price survives in `opp1`.
pub open spec fn fully_consumed_at(ts: Seq<Trade>, l: Level, opp1: Seq<Level>, start: int) -> bool {
    &&& batch_consumes(
        ts,
        start,
        l.orders@.len() as int,
        l.orders@.len() as int,
        l.orders@,
        l.price,
    )
    &&& forall|j: int|
        0 <= j < ts.len() && !(start <= j < start + l.orders@.len()) ==> (#[trigger] ts[j]).price
            != l.price
    &&& forall|li: int| 0 <= li < opp1.len() ==> (#[trigger] opp1[li]).price != l.price
}

#[verifier::opaque]
pub open spec fn level_fully_consumed(ts: Seq<Trade>, l: Level, opp1: Seq<Level>) -> bool {
    exists|start: int| fully_consumed_at(ts, l, opp1, start)
}

/// The final run of trades consumed a proper head prefix of the level's
/// queue: `c` makers in full, a possible last one in part, and `opp1`
/// keeps the level with exactly the surviving suffix.
pub open spec fn partially_consumed_at(
    ts: Seq<Trade>,
    l: Level,
    opp1: Seq<Level>,
    start: int,
    n: int,
    c: int,
) -> bool {
    &&& batch_consumes(ts, start, n, c, l.orders@, l.price)
    &&& start + n == ts.len()
    &&& c < l.orders@.len()
    &&& forall|j: int| 0 <= j < start ==> (#[trigger] ts[j]).price != l.price
    &&& exists|li: int|
        0 <= li < opp1.len() && (#[trigger] opp1[li]).price == l.price && opp1[li].orders@ == (
        if n == c + 1 {
            l.orders@.skip(c).update(0, l.orders@[c].after_fill(ts[ts.len() - 1].quantity))
        } else {
            l.orders@.skip(c)
        })
}

pub open spec fn level_partially_consumed(ts: Seq<Trade>, l: Level, opp1: Seq<Level>) -> bool {
    exists|start: int, n: int, c: int| partially_consumed_at(ts, l, opp1, start, n, c)
}

/// What one submission did to an opposite-side level of the pre-book:
/// left it alone, consumed it whole, or consumed a head prefix and left
/// the rest.
pub open spec fn level_outcome(ts: Seq<Trade>, l: Level, opp1: Seq<Level>) -> bool {
    ||| level_untouched(ts, l, opp1)
    ||| level_fully_consumed(ts, l, opp1)
    ||| level_partially_consumed(ts, l, opp1)
}

/// Mid-match bookkeeping: the first `d` pre-book levels have been taken
/// off the front, the rest stand — except that the matching may have
/// ended inside level `d`, leaving its suffix. Every trade so far priced
/// at one of the consumed levels.
#[verifier::opaque]
pub open spec fn side_after_consuming(
    levels0: Seq<Level>,
    d: int,
    ts: Seq<Trade>,
    cur: Seq<Level>,
) -> bool {
    ||| (cur == levels0.skip(d) && (forall|i: int|
        0 <= i < ts.len() ==> price_among(levels0, d, (#[trigger] ts[i]).price)))
    ||| (d < levels0.len() && level_partially_consumed(ts, levels0[d], cur) && cur.len()
        == levels0.len() - d && (forall|i: int| 1 <= i < cur.len() ==> cur[i] == levels0[d + i])
        && cur[0].price == levels0[d].price && (forall|i: int|
        0 <= i < ts.len() ==> price_among(levels0, d + 1, (#[trigger] ts[i]).price)))
}

/// Turns the mid-match bookkeeping into the per-level verdicts: every
/// pre-book level is untouched, fully consumed, or the one partial level,
/// and every surviving level's price comes from the pre-book.
proof fn lemma_side_outcomes(opp: Side, levels0: Seq<Level>, cur: Seq<Level>, d: int, ts: Seq<Trade>)
    requires
        sorted_best_first(opp, levels0),
        0 <= d <= levels0.len(),
        side_after_consuming(levels0, d, ts, cur),
        forall|li: int|
            0 <= li < d ==> level_fully_consumed(ts, (#[trigger] levels0[li]), cur),
    ensures
        forall|li: int| 0 <= li < levels0.len() ==> level_outcome(ts, (#[trigger] levels0[li]), cur),
        forall|li1: int|
            0 <= li1 < cur.len() ==> price_among(
                levels0,
                levels0.len() as int,
                (#[trigger] cur[li1]).price,
            ),
{
    reveal(side_after_consuming);
    reveal(level_fully_consumed);
    let plain = cur == levels0.skip(d) && (forall|i: int|
        0 <= i < ts.len() ==> price_among(levels0, d, (#[trigger] ts[i]).price));
    assert forall|li: int| 0 <= li < levels0.len() implies level_outcome(
        ts,
        (#[trigger] levels0[li]),
        cur,
    ) by {
        if li < d {
            assert(level_fully_consumed(ts, levels0[li], cur));
        } else {
            if plain {
                assert(cur[li - d] == levels0[li]);
                assert(level_in(cur, levels0[li]));
                assert forall|j: int| 0 <= j < ts.len() implies (#[trigger] ts[j]).price
                    != levels0[li].price by {
                    let lj = choose|lj: int|
                        0 <= lj < d && lj < levels0.len() && levels0[lj].price == ts[j].price;
                    assert(better(opp, levels0[lj].price, levels0[li].price));
                };
                assert(level_untouched(ts, levels0[li], cur));
            } else {
                if li == d {
                    assert(level_partially_consumed(ts, levels0[d], cur));
                } else {
                    assert(cur[li - d] == levels0[li]);
                    assert(level_in(cur, levels0[li]));
                    assert forall|j: int| 0 <= j < ts.len() implies (#[trigger] ts[j]).price
                        != levels0[li].price by {
                        let lj = choose|lj: int|
                            0 <= lj < d + 1 && lj < levels0.len() && levels0[lj].price
                                == ts[j].price;
                        assert(better(opp, levels0[lj].price, levels0[li].price));
                    };
                    assert(level_untouched(ts, levels0[li], cur));
                }
            }
        }
    };
    assert forall|li1: int| 0 <= li1 < cur.len() implies price_among(
        levels0,
        levels0.len() as int,
        (#[trigger] cur[li1]).price,
    ) by {
        if plain {
            assert(cur[li1] == levels0[d + li1]);
        } else {
            if li1 == 0 {
                assert(cur[0].price == levels0[d].price);
            } else {
                assert(cur[li1] == levels0[d + li1]);
            }
        }
    };
}

/// Settles one head-level batch: the freshly appended trades `ts_new`
/// consumed the head of pre-book level `d` head-first, so the settled
/// prefix grows (or the level keeps its suffix and matching has ended) and
/// the bookkeeping predicate carries to the new state.
#[verifier::rlimit(100)]
proof fn lemma_settle_head_level(
    opp: Side,
    levels0: Seq<Level>,
    prev_opp: Seq<Level>,
    cur_opp: Seq<Level>,
    d: int,
    ts_prev: Seq<Trade>,
    ts_new: Seq<Trade>,
    ts: Seq<Trade>,
    c: int,
    taker: Order,
    instr: Seq<char>,
)
    requires
        sorted_best_first(opp, levels0),
        0 <= d < levels0.len(),
        prev_opp == levels0.skip(d),
        forall|li: int|
            0 <= li < d ==> level_fully_consumed(ts_prev, (#[trigger] levels0[li]), prev_opp),
        forall|i: int|
            0 <= i < ts_prev.len() ==> price_among(levels0, d, (#[trigger] ts_prev[i]).price),
        ts == ts_prev + ts_new,
        1 <= ts_new.len() <= levels0[d].orders@.len(),
        c <= ts_new.len() <= c + 1,
        0 <= c,
        forall|k: int|
            0 <= k < ts_new.len() ==> trade_matches(
                #[trigger] ts_new[k],
                taker,
                levels0[d].orders@[k].order_id,
                levels0[d].price,
                instr,
            ),
        forall|k: int|
            0 <= k < ts_new.len() ==> (#[trigger] ts_new[k]).quantity
                <= levels0[d].orders@[k].remaining_quantity,
        forall|k: int|
            0 <= k < c ==> (#[trigger] ts_new[k]).quantity
                == levels0[d].orders@[k].remaining_quantity,
        c == levels0[d].orders@.len() ==> cur_opp == prev_opp.skip(1) && ts_new.len() == c,
        c < levels0[d].orders@.len() ==> cur_opp.len() == prev_opp.len() && (forall|i: int|
            1 <= i < prev_opp.len() ==> #[trigger] cur_opp[i] == prev_opp[i]) && cur_opp[0].price
            == levels0[d].price && cur_opp[0].orders@ == (if ts_new.len() == c + 1 {
            levels0[d].orders@.skip(c).update(
                0,
                levels0[d].orders@[c].after_fill(ts_new[ts_new.len() - 1].quantity),
            )
        } else {
            levels0[d].orders@.skip(c)
        }),
    ensures
        c == levels0[d].orders@.len() ==> cur_opp == levels0.skip(d + 1) && (forall|li: int|
            0 <= li < d + 1 ==> level_fully_consumed(ts, (#[trigger] levels0[li]), cur_opp)) && (
        forall|i: int|
            0 <= i < ts.len() ==> price_among(levels0, d + 1, (#[trigger] ts[i]).price))
            && side_after_consuming(levels0, d + 1, ts, cur_opp),
        c < levels0[d].orders@.len() ==> (forall|li: int|
            0 <= li < d ==> level_fully_consumed(ts, (#[trigger] levels0[li]), cur_opp))
            && side_after_consuming(levels0, d, ts, cur_opp),
{
    reveal(side_after_consuming);
    reveal(level_fully_consumed);
    let start = ts_prev.len() as int;
    let n = ts_new.len() as int;
    let l = levels0[d];
    let q0 = l.orders@;
    assert forall|k: int| 0 <= k < n implies #[trigger] ts[start + k] == ts_new[k] by {};
    assert forall|j: int| 0 <= j < start implies #[trigger] ts[j] == ts_prev[j] by {};
    assert(ts.len() == start + n);
    // the appended run consumes the head of level `d`
    assert(batch_consumes(ts, start, n, c, q0, l.price)) by {
        assert forall|k: int|
            0 <= k < n implies (#[trigger] ts[start + k]).price == l.price && ts[start
            + k].maker_id() == q0[k].order_id && ts[start + k].quantity
            <= q0[k].remaining_quantity by {
            assert(ts[start + k] == ts_new[k]);
            assert(trade_matches(ts_new[k], taker, q0[k].order_id, l.price, instr));
            assert(ts_new[k].maker_id() == q0[k].order_id);
        };
        assert forall|k: int| 0 <= k < c implies (#[trigger] ts[start + k]).quantity
            == q0[k].remaining_quantity by {
            assert(ts[start + k] == ts_new[k]);
        };
    };
    // no older trade carries the head level's price
    assert forall|j: int| 0 <= j < start implies (#[trigger] ts[j]).price != l.price by {
        assert(ts[j] == ts_prev[j]);
        assert(price_among(levels0, d, ts_prev[j].price));
        let lj = choose|lj: int|
            0 <= lj < d && lj < levels0.len() && levels0[lj].price == ts_prev[j].price;
        assert(better(opp, levels0[lj].price, levels0[d].price));
    };
    // every surviving price was already a surviving price before
    assert forall|li3: int| 0 <= li3 < cur_opp.len() implies exists|li0: int|
        0 <= li0 < prev_opp.len() && (#[trigger] cur_opp[li3]).price == prev_opp[li0].price by {
        if c == q0.len() {
            assert(cur_opp[li3] == prev_opp[li3 + 1]);
        } else {
            if li3 == 0 {
                assert(cur_opp[0].price == prev_opp[0].price);
            } else {
                assert(cur_opp[li3] == prev_opp[li3]);
            }
        }
    };
    // the settled prefix carries over
    assert forall|li2: int| 0 <= li2 < d implies level_fully_consumed(
        ts,
        (#[trigger] levels0[li2]),
        cur_opp,
    ) by {
        assert(levels0[li2].price != l.price) by {
            assert(better(opp, levels0[li2].price, levels0[d].price));
        };
        assert forall|j: int| start <= j < ts.len() implies (#[trigger] ts[j]).price
            == l.price by {
            assert(ts[j] == ts[start + (j - start)]);
        };
        lemma_fully_consumed_extend(ts_prev, ts, levels0[li2], prev_opp, cur_opp, l.price);
    };
    if c == q0.len() {
        assert(n == c);
        assert(cur_opp =~= levels0.skip(d + 1));
        assert(fully_consumed_at(ts, l, cur_opp, start)) by {
            assert forall|li2: int| 0 <= li2 < cur_opp.len() implies (
            #[trigger] cur_opp[li2]).price != l.price by {
                assert(cur_opp[li2] == prev_opp[li2 + 1]);
                assert(prev_opp[li2 + 1] == levels0[d + li2 + 1]);
                assert(better(opp, levels0[d].price, levels0[d + li2 + 1].price));
            };
        };
        assert forall|i: int| 0 <= i < ts.len() implies price_among(
            levels0,
            d + 1,
            (#[trigger] ts[i]).price,
        ) by {
            if i < start {
                let lj = choose|lj: int|
                    0 <= lj < d && lj < levels0.len() && levels0[lj].price == ts_prev[i].price;
                assert(ts[i] == ts_prev[i]);
            } else {
                assert(ts[i] == ts[start + (i - start)]);
                assert(levels0[d].price == ts[i].price);
            }
        };
        assert(side_after_consuming(levels0, d + 1, ts, cur_opp));
    } else {
        assert(partially_consumed_at(ts, l, cur_opp, start, n, c)) by {
            assert(cur_opp[0].price == l.price);
            assert(ts[ts.len() - 1] == ts_new[n - 1]);
        };
        assert forall|i: int| 0 <= i < ts.len() implies price_among(
            levels0,
            d + 1,
            (#[trigger] ts[i]).price,
        ) by {
            if i < start {
                let lj = choose|lj: int|
                    0 <= lj < d && lj < levels0.len() && levels0[lj].price == ts_prev[i].price;
                assert(ts[i] == ts_prev[i]);
            } else {
                assert(ts[i] == ts[start + (i - start)]);
                assert(levels0[d].price == ts[i].price);
            }
        };
        assert(cur_opp.len() == levels0.len() - d);
        assert forall|i2: int| 1 <= i2 < cur_opp.len() implies cur_opp[i2] == levels0[d
            + i2] by {
            assert(cur_opp[i2] == prev_opp[i2]);
            assert(prev_opp[i2] == levels0[d + i2]);
        };
        assert(side_after_consuming(levels0, d, ts, cur_opp));
    }
}

/// Carries a settled level's full-consumption verdict across an appended
/// batch of differently-priced trades and a shrunken opposite side.
proof fn lemma_fully_consumed_extend(
    ts_prev: Seq<Trade>,
    ts: Seq<Trade>,
    l2: Level,
    prev_opp: Seq<Level>,
    cur_opp: Seq<Level>,
    newprice: u64,
)
    requires
        level_fully_consumed(ts_prev, l2, prev_opp),
        ts.len() >= ts_prev.len(),
        forall|j: int| 0 <= j < ts_prev.len() ==> #[trigger] ts[j] == ts_prev[j],
        forall|j: int| ts_prev.len() <= j < ts.len() ==> (#[trigger] ts[j]).price == newprice,
        newprice != l2.price,
        forall|li: int|
            0 <= li < cur_opp.len() ==> exists|li0: int|
                0 <= li0 < prev_opp.len() && (#[trigger] cur_opp[li]).price == prev_opp[li0].price,
    ensures
        level_fully_consumed(ts, l2, cur_opp),
{
    reveal(level_fully_consumed);
    let s2 = choose|s2: int| fully_consumed_at(ts_prev, l2, prev_opp, s2);
    let m = l2.orders@.len() as int;
    assert(fully_consumed_at(ts, l2, cur_opp, s2)) by {
        assert(batch_consumes(ts, s2, m, m, l2.orders@, l2.price)) by {
            assert forall|k: int|
                0 <= k < m implies (#[trigger] ts[s2 + k]).price == l2.price && ts[s2
                + k].maker_id() == l2.orders@[k].order_id && ts[s2 + k].quantity
                == l2.orders@[k].remaining_quantity by {
                assert(ts[s2 + k] == ts_prev[s2 + k]);
            };
        };
        assert forall|j: int|
            0 <= j < ts.len() && !(s2 <= j < s2 + m) implies (#[trigger] ts[j]).price
            != l2.price by {
            if j < ts_prev.len() {
                assert(ts[j] == ts_prev[j]);
            }
        };
        assert forall|li: int| 0 <= li < cur_opp.len() implies (#[trigger] cur_opp[li]).price
            != l2.price by {
            let li0 = choose|li0: int|
                0 <= li0 < prev_opp.len() && cur_opp[li].price == prev_opp[li0].price;
            assert(prev_opp[li0].price != l2.price);
        };
    };
}

/// `levels1` is `levels0` with `fin` enqueued at the tail of the level at
/// price `p` — the level's queue grown by one, or a fresh singleton level
/// where no level sat at `p`.
pub open spec fn rest_into(levels0: Seq<Level>, fin: Order, p: u64, levels1: Seq<Level>) -> bool {
    ||| (exists|li: int| rested_at_existing(levels0, fin, p, levels1, li))
    ||| ((forall|li: int| 0 <= li < levels0.len() ==> levels0[li].price != p) && exists|k: int|
        rested_at_new(levels0, fin, p, levels1, k))
}

/// Everything `add_order` promises, over the book before (`b0`) and after
/// (`b1`): the trades `ts` in execution order, the fully consumed makers
/// `fs`, and the incoming order's final record `fin`.
pub open spec fn submit_outcome(
    b0: OrderBook,
    o: Order,
    ts: Seq<Trade>,
    fs: Seq<Order>,
    fin: Order,
    b1: OrderBook,
) -> bool {
    let opp = opposite(o.side);
    &&& b1.inv()
    &&& b1.instrument == b0.instrument
    // the incoming order's final record
    &&& fin.same_identity(o)
    &&& fin.remaining_quantity <= o.remaining_quantity
    &&& trades_qty_sum(ts) == o.remaining_quantity - fin.remaining_quantity
    &&& ts.len() == 0 ==> fin == o
    &&& ts.len() > 0 ==> fin.status == (if fin.remaining_quantity == 0 {
        OrderStatus::Filled
    } else {
        OrderStatus::PartiallyFilled
    })
    // trades happen exactly when the book is crossed with quantity to fill
    &&& ts.len() == 0 <==> (o.remaining_quantity == 0 || b0.levels_of(opp).len() == 0 || !crosses(
        o,
        b0.levels_of(opp)[0].price,
    ))
    // each trade: taker attribution, crossing, and a maker that rested at
    // exactly the trade's price
    &&& forall|i: int|
        0 <= i < ts.len() ==> trade_matches(
            #[trigger] ts[i],
            o,
            ts[i].maker_id(),
            ts[i].price,
            b0.instrument@,
        )
    &&& forall|i: int| 0 <= i < ts.len() ==> crosses(o, (#[trigger] ts[i]).price)
    &&& forall|i: int|
        0 <= i < ts.len() ==> has_resting(b0, opp, (#[trigger] ts[i]).price, ts[i].maker_id())
    // strict best-price-first
    &&& forall|i: int, j: int|
        0 <= i <= j < ts.len() ==> !better(opp, (#[trigger] ts[j]).price, (#[trigger] ts[i]).price)
    // strict FIFO within a price level
    &&& forall|i: int, j: int|
        0 <= i < j < ts.len() && ts[i].price == ts[j].price ==> fifo_pair(
            b0,
            opp,
            #[trigger] ts[i],
            #[trigger] ts[j],
        )
    &&& forall|i: int, li: int|
        0 <= i < ts.len() && 0 <= li < b1.levels_of(opp).len() ==> !better(
            opp,
            (#[trigger] b1.levels_of(opp)[li]).price,
            (#[trigger] ts[i]).price,
        )
    // an unfilled remainder means no opposite level crosses any more
    &&& fin.remaining_quantity > 0 ==> forall|li: int|
        0 <= li < b1.levels_of(opp).len() ==> !crosses(o, (#[trigger] b1.levels_of(opp)[li]).price)
    // fully consumed makers leave the book
    &&& fs.len() <= ts.len() <= fs.len() + 1
    &&& forall|i: int|
        0 <= i < fs.len() ==> (#[trigger] fs[i]).remaining_quantity == 0 && fs[i].status
            == OrderStatus::Filled
    // each opposite level's fate shows in the trades: untouched, consumed
    // whole head-first, or consumed up to one final partial maker — so no
    // trade can exceed what its maker had resting
    &&& forall|li: int|
        0 <= li < b0.levels_of(opp).len() ==> level_outcome(
            ts,
            (#[trigger] b0.levels_of(opp)[li]),
            b1.levels_of(opp),
        )
    &&& forall|li1: int|
        0 <= li1 < b1.levels_of(opp).len() ==> price_among(
            b0.levels_of(opp),
            b0.levels_of(opp).len() as int,
            (#[trigger] b1.levels_of(opp)[li1]).price,
        )
    // a MARKET remainder is discarded, a filled order never rests
    &&& (o.order_type == OrderType::Market || fin.remaining_quantity == 0) ==> b1.levels_of(o.side)
        == b0.levels_of(o.side) && index_minus_ids(b0.orders@, fs, b1.orders@)
    // a LIMIT remainder rests at the tail of its price level
    &&& (o.order_type == OrderType::Limit && fin.remaining_quantity > 0) ==> rest_into(
        b0.levels_of(o.side),
        fin,
        o.price.unwrap(),
        b1.levels_of(o.side),
    ) && b1.levels_of(opp).len() <= b0.levels_of(opp).len()
    // a non-crossing LIMIT changes the book by exactly its own resting
    &&& (ts.len() == 0 && o.order_type == OrderType::Limit && o.remaining_quantity > 0) ==> {
        &&& b1.orders@ == b0.orders@.push(
            IndexEntry { order_id: o.order_id, side: o.side, price: o.price.unwrap() },
        )
        &&& b1.levels_of(opp) == b0.levels_of(opp)
    }
}

/// The order carrying `id` left queue position (`li`, `j`): the whole
/// level is gone when it was alone, else only its slot, and `removed` is
/// its record with status CANCELLED.
pub open spec fn removed_at(
    levels0: Seq<Level>,
    id: u128,
    removed: Order,
    levels1: Seq<Level>,
    li: int,
    j: int,
) -> bool {
    &&& 0 <= li < levels0.len()
    &&& 0 <= j < levels0[li].orders@.len()
    &&& levels0[li].orders@[j].order_id == id
    &&& removed == (Order { status: OrderStatus::Canceled, ..levels0[li].orders@[j] })
    &&& if levels0[li].orders@.len() == 1 {
        levels1 == levels0.remove(li)
    } else {
        &&& levels1.len() == levels0.len()
        &&& (forall|i: int| 0 <= i < levels0.len() && i != li ==> levels1[i] == levels0[i])
        &&& levels1[li].price == levels0[li].price
        &&& levels1[li].orders@ == levels0[li].orders@.remove(j)
    }
}

/// `levels1` is `levels0` with the order carrying `id` scrubbed from its
/// queue — the whole level dropped when the queue would empty — and
/// `removed` is that order's record.
pub open spec fn removed_from_side(
    levels0: Seq<Level>,
    id: u128,
    removed: Order,
    levels1: Seq<Level>,
) -> bool {
    exists|li: int, j: int| removed_at(levels0, id, removed, levels1, li, j)
}

/// Everything `cancel_order` promises on success: the resting order with
/// this id left its queue (and the level, when it was alone), its index
/// entry is gone, nothing else moved, and the caller gets the record back
/// with status CANCELLED.
pub open spec fn cancel_outcome(b0: OrderBook, id: u128, removed: Order, b1: OrderBook) -> bool {
    &&& removed.order_id == id
    &&& removed.status == OrderStatus::Canceled
    &&& removed.order_type == OrderType::Limit
    &&& removed.price == Some(removed.price.unwrap())
    &&& removed.remaining_quantity > 0
    &&& exists|k: int|
        0 <= k < b0.orders@.len() && b0.orders@[k] == (IndexEntry {
            order_id: id,
            side: removed.side,
            price: removed.price.unwrap(),
        }) && b1.orders@ == b0.orders@.remove(k)
    &&& b1.levels_of(opposite(removed.side)) == b0.levels_of(opposite(removed.side))
    &&& removed_from_side(b0.levels_of(removed.side), id, removed, b1.levels_of(removed.side))
    &&& b1.instrument == b0.instrument
}

/// Find the level sitting at `price`, if any.
fn find_level_at(levels: &Vec<Level>, price: u64) -> (r: Option<usize>)
    ensures
        r matches Some(li) ==> li < levels@.len() && levels@[li as int].price == price,
        r is None ==> forall|i: int| 0 <= i < levels@.len() ==> levels@[i].price != price,
{
    let n: usize = levels.len();
    let mut i: usize = 0;
    while i < n
        invariant
            n == levels@.len(),
            0 <= i <= n,
            forall|i2: int| 0 <= i2 < i ==> levels@[i2].price != price,
        decreases n - i,
    {
        if levels[i].price == price {
            return Some(i);
        }
        i = i + 1;
    }
    None
}

/// Find the queue position of the order carrying `id`, if any.
fn find_in_queue(orders: &Vec<Order>, id: u128) -> (r: Option<usize>)
    ensures
        r matches Some(j) ==> j < orders@.len() && orders@[j as int].order_id == id,
        r is None ==> forall|j: int| 0 <= j < orders@.len() ==> orders@[j].order_id != id,
{
    let n: usize = orders.len();
    let mut j: usize = 0;
    while j < n
        invariant
            n == orders@.len(),
            0 <= j <= n,
            forall|j2: int| 0 <= j2 < j ==> orders@[j2].order_id != id,
        decreases n - j,
    {
        if orders[j].order_id == id {
            return Some(j);
        }
        j = j + 1;
    }
    None
}

/// Find the index entry carrying `id`, if any.
pub(crate) fn index_find(ix: &Vec<IndexEntry>, id: u128) -> (r: Option<usize>)
    ensures
        r matches Some(k) ==> k < ix@.len() && ix@[k as int].order_id == id,
        r is None ==> forall|k: int| 0 <= k < ix@.len() ==> ix@[k].order_id != id,
{
    let n: usize = ix.len();
    let mut k: usize = 0;
    while k < n
        invariant
            n == ix@.len(),
            0 <= k <= n,
            forall|k2: int| 0 <= k2 < k ==> ix@[k2].order_id != id,
        decreases n - k,
    {
        if ix[k].order_id == id {
            return Some(k);
        }
        k = k + 1;
    }
    None
}

/// Restores the book invariant after a cancel: entry `k` of the index is
/// gone, and on its side the order left queue position `j` of level `li`
/// (the level itself, when the queue held only it).
proof fn lemma_cancel_inv(b0: OrderBook, b1: OrderBook, k: int, li: int, j: int)
    requires
        b0.inv(),
        0 <= k < b0.orders@.len(),
        b1.orders@ == b0.orders@.remove(k),
        ({
            let e = b0.orders@[k];
            let levels0 = b0.levels_of(e.side);
            &&& 0 <= li < levels0.len()
            &&& levels0[li].price == e.price
            &&& 0 <= j < levels0[li].orders@.len()
            &&& levels0[li].orders@[j].order_id == e.order_id
            &&& b1.levels_of(opposite(e.side)) == b0.levels_of(opposite(e.side))
            &&& if levels0[li].orders@.len() == 1 {
                b1.levels_of(e.side) == levels0.remove(li)
            } else {
                &&& b1.levels_of(e.side).len() == levels0.len()
                &&& (forall|i: int| 0 <= i < levels0.len() && i != li ==> b1.levels_of(e.side)[i] == levels0[i])
                &&& b1.levels_of(e.side)[li].price == levels0[li].price
                &&& b1.levels_of(e.side)[li].orders@ == levels0[li].orders@.remove(j)
            }
        }),
        b1.instrument == b0.instrument,
    ensures
        b1.inv(),
{
    let e = b0.orders@[k];
    let s = e.side;
    let other = opposite(s);
    let levels0 = b0.levels_of(s);
    let q0 = levels0[li].orders@;
    let gone = q0.len() == 1;
    assert(b0.side_wf(s));
    assert(levels0[li].wf(b0.instrument@, s));

    // distinct prices per side
    assert forall|i1: int, i2: int|
        0 <= i1 < levels0.len() && 0 <= i2 < levels0.len() && levels0[i1].price
            == levels0[i2].price implies i1 == i2 by {
        if i1 < i2 {
            assert(better(s, levels0[i1].price, levels0[i2].price));
        }
        if i2 < i1 {
            assert(better(s, levels0[i2].price, levels0[i1].price));
        }
    };

    // the cancelled id occurs nowhere else: not at another queue position,
    // not on the other side
    assert forall|s2: Side, li2: int, j2: int|
        0 <= li2 < b0.levels_of(s2).len() && 0 <= j2 < b0.levels_of(s2)[li2].orders@.len() && (
        s2 != s || li2 != li || j2 != j) implies (
    #[trigger] b0.levels_of(s2)[li2].orders@[j2]).order_id != e.order_id by {
        if b0.levels_of(s2)[li2].orders@[j2].order_id == e.order_id {
            assert(b0.queues_indexed(s2));
            assert(b0.index_has_entry(e.order_id, s2, b0.levels_of(s2)[li2].price));
            let k2 = choose|k2: int|
                0 <= k2 < b0.orders@.len() && b0.orders@[k2] == (IndexEntry {
                    order_id: e.order_id,
                    side: s2,
                    price: b0.levels_of(s2)[li2].price,
                });
            if k2 != k {
                assert(b0.orders@[k2].order_id == b0.orders@[k].order_id);
            }
            assert(s2 == s && b0.levels_of(s2)[li2].price == e.price);
            assert(li2 == li);
            assert(b0.levels_of(s)[li].wf(b0.instrument@, s));
            if j2 < j {
                assert(q0[j2].order_id != q0[j].order_id);
            }
            if j < j2 {
                assert(q0[j].order_id != q0[j2].order_id);
            }
        }
    };

    // well-formed sides
    assert(b1.side_wf(other)) by {
        assert(b0.side_wf(other));
        assert forall|i: int| 0 <= i < b1.levels_of(other).len() implies (#[trigger] b1.levels_of(
            other,
        )[i]).wf(b1.instrument@, other) by {
            assert(b0.levels_of(other)[i].wf(b0.instrument@, other));
        };
    };
    assert(b1.side_wf(s)) by {
        if gone {
            assert forall|i1: int, i2: int|
                0 <= i1 < i2 < b1.levels_of(s).len() implies better(
                s,
                b1.levels_of(s)[i1].price,
                b1.levels_of(s)[i2].price,
            ) by {
                let m1 = if i1 < li {
                    i1
                } else {
                    i1 + 1
                };
                let m2 = if i2 < li {
                    i2
                } else {
                    i2 + 1
                };
                assert(b1.levels_of(s)[i1] == levels0[m1]);
                assert(b1.levels_of(s)[i2] == levels0[m2]);
            };
            assert forall|i: int| 0 <= i < b1.levels_of(s).len() implies (#[trigger] b1.levels_of(
                s,
            )[i]).wf(b1.instrument@, s) by {
                let m = if i < li {
                    i
                } else {
                    i + 1
                };
                assert(b1.levels_of(s)[i] == levels0[m]);
                assert(levels0[m].wf(b0.instrument@, s));
            };
        } else {
            assert forall|i1: int, i2: int|
                0 <= i1 < i2 < b1.levels_of(s).len() implies better(
                s,
                b1.levels_of(s)[i1].price,
                b1.levels_of(s)[i2].price,
            ) by {
                assert(b1.levels_of(s)[i1].price == levels0[i1].price);
                assert(b1.levels_of(s)[i2].price == levels0[i2].price);
            };
            assert forall|i: int| 0 <= i < b1.levels_of(s).len() implies (#[trigger] b1.levels_of(
                s,
            )[i]).wf(b1.instrument@, s) by {
                if i != li {
                    assert(b1.levels_of(s)[i] == levels0[i]);
                    assert(levels0[i].wf(b0.instrument@, s));
                } else {
                    let q1 = b1.levels_of(s)[li].orders@;
                    assert(q1 == q0.remove(j));
                    assert forall|j2: int| 0 <= j2 < q1.len() implies resting_order_wf(
                        #[trigger] q1[j2],
                        b1.instrument@,
                        s,
                        b1.levels_of(s)[li].price,
                    ) by {
                        let m = if j2 < j {
                            j2
                        } else {
                            j2 + 1
                        };
                        assert(q1[j2] == q0[m]);
                        assert(resting_order_wf(q0[m], b0.instrument@, s, levels0[li].price));
                    };
                    assert forall|j1: int, j2: int|
                        0 <= j1 < j2 < q1.len() implies q1[j1].order_id != q1[j2].order_id by {
                        let m1 = if j1 < j {
                            j1
                        } else {
                            j1 + 1
                        };
                        let m2 = if j2 < j {
                            j2
                        } else {
                            j2 + 1
                        };
                        assert(q1[j1] == q0[m1] && q1[j2] == q0[m2]);
                    };
                }
            };
        }
    };

    // index uniqueness survives the removal
    assert forall|k1: int, k2: int|
        0 <= k1 < k2 < b1.orders@.len() implies b1.orders@[k1].order_id
        != b1.orders@[k2].order_id by {
        let m1 = if k1 < k {
            k1
        } else {
            k1 + 1
        };
        let m2 = if k2 < k {
            k2
        } else {
            k2 + 1
        };
        assert(b1.orders@[k1] == b0.orders@[m1] && b1.orders@[k2] == b0.orders@[m2]);
    };

    // surviving entries still point at their levels
    assert forall|k2: int| 0 <= k2 < b1.orders@.len() implies b1.index_entry_ok(
        #[trigger] b1.orders@[k2],
    ) by {
        let m = if k2 < k {
            k2
        } else {
            k2 + 1
        };
        let e2 = b1.orders@[k2];
        assert(e2 == b0.orders@[m]);
        assert(e2.order_id != e.order_id) by {
            if m < k {
                assert(b0.orders@[m].order_id != b0.orders@[k].order_id);
            }
            if m > k {
                assert(b0.orders@[k].order_id != b0.orders@[m].order_id);
            }
        };
        assert(b0.index_entry_ok(e2));
        let li0 = choose|li0: int|
            0 <= li0 < b0.levels_of(e2.side).len() && b0.levels_of(e2.side)[li0].price == e2.price
                && b0.levels_of(e2.side)[li0].contains_id(e2.order_id);
        let j0 = choose|j0: int|
            0 <= j0 < b0.levels_of(e2.side)[li0].orders@.len() && b0.levels_of(
                e2.side,
            )[li0].orders@[j0].order_id == e2.order_id;
        if e2.side != s {
            assert(b1.levels_of(e2.side)[li0].contains_id(e2.order_id));
        } else {
            if gone {
                assert(li0 != li) by {
                    if li0 == li {
                        assert(q0.len() == 1);
                        assert(j0 == 0 && j == 0);
                    }
                };
                let m2 = if li0 < li {
                    li0
                } else {
                    li0 - 1
                };
                assert(b1.levels_of(s)[m2] == levels0[li0]);
                assert(b1.levels_of(s)[m2].contains_id(e2.order_id));
            } else {
                if li0 != li {
                    assert(b1.levels_of(s)[li0] == levels0[li0]);
                    assert(b1.levels_of(s)[li0].contains_id(e2.order_id));
                } else {
                    assert(j0 != j);
                    let j1 = if j0 < j {
                        j0
                    } else {
                        j0 - 1
                    };
                    assert(b1.levels_of(s)[li].orders@[j1] == q0[j0]);
                    assert(b1.levels_of(s)[li].contains_id(e2.order_id));
                }
            }
        }
    };

    // surviving queued orders are still indexed
    assert forall|s2: Side, li2: int, j2: int|
        (s2 == s || s2 == other) && 0 <= li2 < b1.levels_of(s2).len() && 0 <= j2 < b1.levels_of(
            s2,
        )[li2].orders@.len() implies b1.index_has_entry(
        (#[trigger] b1.levels_of(s2)[li2].orders@[j2]).order_id,
        s2,
        b1.levels_of(s2)[li2].price,
    ) by {
        // map the position back into b0
        let (li0, j0): (int, int) = if s2 != s {
            (li2, j2)
        } else if gone {
            (if li2 < li {
                li2
            } else {
                li2 + 1
            }, j2)
        } else if li2 != li {
            (li2, j2)
        } else {
            (li2, if j2 < j {
                j2
            } else {
                j2 + 1
            })
        };
        assert(b1.levels_of(s2)[li2].orders@[j2] == b0.levels_of(s2)[li0].orders@[j0]);
        assert(b1.levels_of(s2)[li2].price == b0.levels_of(s2)[li0].price);
        assert(b0.queues_indexed(s2));
        let id2 = b0.levels_of(s2)[li0].orders@[j0].order_id;
        let p2 = b0.levels_of(s2)[li0].price;
        assert(b0.index_has_entry(id2, s2, p2));
        let kk = choose|kk: int|
            0 <= kk < b0.orders@.len() && b0.orders@[kk] == (IndexEntry {
                order_id: id2,
                side: s2,
                price: p2,
            });
        assert(id2 != e.order_id) by {
            assert(!(s2 != s || li0 != li || j0 != j) ==> false);
        };
        assert(kk != k);
        let kn = if kk < k {
            kk
        } else {
            kk - 1
        };
        assert(b1.orders@[kn] == b0.orders@[kk]);
    };
    assert(b1.queues_indexed(s)) by {
        assert(s == Side::Buy || s == Side::Sell);
    };
    assert(b1.queues_indexed(other));
}

/// A resting order after zero or more partial executions: same identity,
/// something still left, status reflecting at most partial execution.
pub open spec fn reduced_resting(o: Order, orig: Order) -> bool {
    &&& o.same_identity(orig)
    &&& 0 < o.remaining_quantity <= orig.remaining_quantity
    &&& (o.status == OrderStatus::New || o.status == OrderStatus::PartiallyFilled)
}

/// Restores the book invariant after the head level of side `opp` has been
/// consumed against an incoming order: either the level is gone entirely, or
/// it kept a non-empty tail of its queue (head possibly partially filled),
/// and the id index lost exactly the fully consumed makers.
proof fn lemma_head_level_consumed_inv(
    b0: OrderBook,
    b1: OrderBook,
    opp: Side,
    consumed: Seq<Order>,
    price: u64,
)
    requires
        b0.inv(),
        b0.levels_of(opp).len() > 0,
        b0.levels_of(opp)[0].price == price,
        b1.instrument == b0.instrument,
        b1.levels_of(opposite(opp)) == b0.levels_of(opposite(opp)),
        consumed.len() <= b0.levels_of(opp)[0].orders@.len(),
        forall|j: int|
            0 <= j < consumed.len() ==> (#[trigger] consumed[j]).order_id == b0.levels_of(
                opp,
            )[0].orders@[j].order_id,
        consumed.len() == b0.levels_of(opp)[0].orders@.len() ==> b1.levels_of(opp)
            == b0.levels_of(opp).skip(1),
        consumed.len() < b0.levels_of(opp)[0].orders@.len() ==> {
            &&& b1.levels_of(opp).len() == b0.levels_of(opp).len()
            &&& (forall|i: int|
                1 <= i < b0.levels_of(opp).len() ==> b1.levels_of(opp)[i] == b0.levels_of(opp)[i])
            &&& b1.levels_of(opp)[0].price == price
            &&& b1.levels_of(opp)[0].orders@.len() == b0.levels_of(opp)[0].orders@.len()
                - consumed.len()
            &&& (forall|j: int|
                0 <= j < b0.levels_of(opp)[0].orders@.len() - consumed.len() ==> reduced_resting(
                    #[trigger] b1.levels_of(opp)[0].orders@[j],
                    b0.levels_of(opp)[0].orders@[consumed.len() + j],
                ))
        },
        index_minus_ids(b0.orders@, consumed, b1.orders@),
        forall|k1: int, k2: int|
            0 <= k1 < k2 < b1.orders@.len() ==> b1.orders@[k1].order_id != b1.orders@[k2].order_id,
    ensures
        b1.inv(),
{
    let own = opposite(opp);
    let levels0 = b0.levels_of(opp);
    let q0 = levels0[0].orders@;
    let c = consumed.len() as int;
    assert(opposite(own) == opp);
    assert(b0.side_wf(opp));
    assert(levels0[0].wf(b0.instrument@, opp));

    // distinct prices within a sorted side
    assert forall|i: int, j: int|
        0 <= i < levels0.len() && 0 <= j < levels0.len() && levels0[i].price == levels0[j].price
            implies i == j by {
        if i < j {
            assert(better(opp, levels0[i].price, levels0[j].price));
        }
        if j < i {
            assert(better(opp, levels0[j].price, levels0[i].price));
        }
    };

    // consumed ids are q0 ids below c, hence pairwise distinct from q0 ids at >= c
    assert forall|id: u128, j: int|
        0 <= j < q0.len() && q0[j].order_id == id && c <= j implies !seq_has_id(consumed, id) by {
        if seq_has_id(consumed, id) {
            let j2 = choose|j2: int| 0 <= j2 < consumed.len() && consumed[j2].order_id == id;
            assert(q0[j2].order_id == q0[j].order_id);
        }
    };

    // side_wf for the incoming order's own side carries over unchanged
    assert(b1.side_wf(own)) by {
        assert(b0.side_wf(own));
        assert(b1.levels_of(own) == b0.levels_of(own));
        assert forall|i: int| 0 <= i < b1.levels_of(own).len() implies (#[trigger] b1.levels_of(
            own,
        )[i]).wf(b1.instrument@, own) by {
            assert(b0.levels_of(own)[i].wf(b0.instrument@, own));
        };
    };

    // side_wf for the consumed side
    assert(b1.side_wf(opp)) by {
        if c == q0.len() {
            assert forall|i: int, j: int|
                0 <= i < j < b1.levels_of(opp).len() implies better(
                opp,
                b1.levels_of(opp)[i].price,
                b1.levels_of(opp)[j].price,
            ) by {
                assert(b1.levels_of(opp)[i] == levels0[i + 1]);
                assert(b1.levels_of(opp)[j] == levels0[j + 1]);
            };
            assert forall|i: int| 0 <= i < b1.levels_of(opp).len() implies (
            #[trigger] b1.levels_of(opp)[i]).wf(b1.instrument@, opp) by {
                assert(b1.levels_of(opp)[i] == levels0[i + 1]);
                assert(levels0[i + 1].wf(b0.instrument@, opp));
            };
        } else {
            assert forall|i: int, j: int|
                0 <= i < j < b1.levels_of(opp).len() implies better(
                opp,
                b1.levels_of(opp)[i].price,
                b1.levels_of(opp)[j].price,
            ) by {
                assert(b1.levels_of(opp)[i].price == levels0[i].price);
                assert(b1.levels_of(opp)[j].price == levels0[j].price);
                assert(better(opp, levels0[i].price, levels0[j].price));
            };
            assert forall|i: int| 0 <= i < b1.levels_of(opp).len() implies (
            #[trigger] b1.levels_of(opp)[i]).wf(b1.instrument@, opp) by {
                if i >= 1 {
                    assert(b1.levels_of(opp)[i] == levels0[i]);
                    assert(levels0[i].wf(b0.instrument@, opp));
                } else {
                    let tail = b1.levels_of(opp)[0].orders@;
                    assert(tail.len() > 0);
                    assert forall|j: int| 0 <= j < tail.len() implies resting_order_wf(
                        #[trigger] tail[j],
                        b1.instrument@,
                        opp,
                        b1.levels_of(opp)[0].price,
                    ) by {
                        assert(reduced_resting(tail[j], q0[c + j]));
                        assert(resting_order_wf(q0[c + j], b0.instrument@, opp, price));
                    };
                    assert forall|j1: int, j2: int|
                        0 <= j1 < j2 < tail.len() implies tail[j1].order_id
                        != tail[j2].order_id by {
                        assert(reduced_resting(tail[j1], q0[c + j1]));
                        assert(reduced_resting(tail[j2], q0[c + j2]));
                        assert(q0[c + j1].order_id != q0[c + j2].order_id);
                    };
                }
            };
        }
    };

    // every surviving index entry still points at its (unchanged or reduced) level
    assert forall|k: int| 0 <= k < b1.orders@.len() implies b1.index_entry_ok(
        #[trigger] b1.orders@[k],
    ) by {
        let e = b1.orders@[k];
        assert(index_seq_has_entry(b0.orders@, e));
        let k0 = choose|k0: int| 0 <= k0 < b0.orders@.len() && b0.orders@[k0] == e;
        assert(b0.index_entry_ok(e));
        let i0 = choose|i0: int|
            0 <= i0 < b0.levels_of(e.side).len() && b0.levels_of(e.side)[i0].price == e.price
                && b0.levels_of(e.side)[i0].contains_id(e.order_id);
        if e.side == own {
            assert(b1.levels_of(e.side)[i0].price == e.price);
            assert(b1.levels_of(e.side)[i0].contains_id(e.order_id));
        } else {
            // e.side == opp
            if i0 >= 1 {
                if c == q0.len() {
                    assert(b1.levels_of(opp)[i0 - 1] == levels0[i0]);
                } else {
                    assert(b1.levels_of(opp)[i0] == levels0[i0]);
                }
            } else {
                // the entry points at the consumed head level
                let j = choose|j: int| 0 <= j < q0.len() && q0[j].order_id == e.order_id;
                assert(!index_seq_has(b1.orders@, e.order_id) <== seq_has_id(
                    consumed,
                    e.order_id,
                )) by {
                    if seq_has_id(consumed, e.order_id) {
                        let j2 = choose|j2: int|
                            0 <= j2 < consumed.len() && consumed[j2].order_id == e.order_id;
                        assert(!index_seq_has(b1.orders@, consumed[j2].order_id));
                    }
                };
                assert(index_seq_has(b1.orders@, e.order_id));
                assert(!seq_has_id(consumed, e.order_id));
                assert(j >= c) by {
                    if j < c {
                        assert(consumed[j].order_id == q0[j].order_id);
                    }
                };
                assert(c < q0.len());
                let tail = b1.levels_of(opp)[0].orders@;
                assert(reduced_resting(tail[j - c], q0[j]));
                assert(b1.levels_of(opp)[0].price == e.price);
                assert(b1.levels_of(opp)[0].contains_id(e.order_id));
            }
        }
    };

    // every surviving queued order is still indexed
    assert(b1.queues_indexed(own)) by {
        assert forall|i: int, j: int|
            0 <= i < b1.levels_of(own).len() && 0 <= j < b1.levels_of(own)[i].orders@.len()
                implies b1.index_has_entry(
            (#[trigger] b1.levels_of(own)[i].orders@[j]).order_id,
            own,
            b1.levels_of(own)[i].price,
        ) by {
            let id = b1.levels_of(own)[i].orders@[j].order_id;
            let p = b1.levels_of(own)[i].price;
            assert(b0.queues_indexed(own));
            assert(b0.levels_of(own)[i].orders@[j] == b1.levels_of(own)[i].orders@[j]);
            assert(b0.index_has_entry(id, own, p));
            let e = IndexEntry { order_id: id, side: own, price: p };
            let k0 = choose|k0: int| 0 <= k0 < b0.orders@.len() && b0.orders@[k0] == e;
            assert(!seq_has_id(consumed, id)) by {
                if seq_has_id(consumed, id) {
                    let j2 = choose|j2: int|
                        0 <= j2 < consumed.len() && consumed[j2].order_id == id;
                    assert(q0[j2].order_id == id);
                    assert(b0.queues_indexed(opp));
                    assert(b0.index_has_entry(id, opp, price));
                    let ko = choose|ko: int|
                        0 <= ko < b0.orders@.len() && b0.orders@[ko] == (IndexEntry {
                            order_id: id,
                            side: opp,
                            price: price,
                        });
                    assert(ko != k0);
                    assert(b0.orders@[ko].order_id == b0.orders@[k0].order_id);
                }
            };
            assert(index_seq_has_entry(b1.orders@, e));
        };
    };
    assert(b1.queues_indexed(opp)) by {
        assert forall|i: int, j: int|
            0 <= i < b1.levels_of(opp).len() && 0 <= j < b1.levels_of(opp)[i].orders@.len()
                implies b1.index_has_entry(
            (#[trigger] b1.levels_of(opp)[i].orders@[j]).order_id,
            opp,
            b1.levels_of(opp)[i].price,
        ) by {
            let id = b1.levels_of(opp)[i].orders@[j].order_id;
            let p = b1.levels_of(opp)[i].price;
            assert(b0.queues_indexed(opp));
            if c == q0.len() {
                assert(b1.levels_of(opp)[i] == levels0[i + 1]);
                assert(b0.levels_of(opp)[i + 1].orders@[j].order_id == id);
                assert(b0.index_has_entry(id, opp, p));
                let e = IndexEntry { order_id: id, side: opp, price: p };
                assert(!seq_has_id(consumed, id)) by {
                    if seq_has_id(consumed, id) {
                        let j2 = choose|j2: int|
                            0 <= j2 < consumed.len() && consumed[j2].order_id == id;
                        assert(q0[j2].order_id == id);
                        assert(b0.index_has_entry(id, opp, price));
                        let k1 = choose|k1: int|
                            0 <= k1 < b0.orders@.len() && b0.orders@[k1] == (IndexEntry {
                                order_id: id,
                                side: opp,
                                price: price,
                            });
                        let k2 = choose|k2: int|
                            0 <= k2 < b0.orders@.len() && b0.orders@[k2] == e;
                        // two index entries with one id must be one entry,
                        // yet their prices differ (head vs deeper level)
                        assert(levels0[0].price != levels0[i + 1].price);
                        if k1 != k2 {
                            assert(b0.orders@[k1].order_id == b0.orders@[k2].order_id);
                        }
                    }
                };
                assert(index_seq_has_entry(b1.orders@, e));
            } else {
                if i >= 1 {
                    assert(b1.levels_of(opp)[i] == levels0[i]);
                    assert(b0.index_has_entry(id, opp, p));
                    let e = IndexEntry { order_id: id, side: opp, price: p };
                    assert(!seq_has_id(consumed, id)) by {
                        if seq_has_id(consumed, id) {
                            let j2 = choose|j2: int|
                                0 <= j2 < consumed.len() && consumed[j2].order_id == id;
                            assert(q0[j2].order_id == id);
                            assert(b0.index_has_entry(id, opp, price));
                            let k1 = choose|k1: int|
                                0 <= k1 < b0.orders@.len() && b0.orders@[k1] == (IndexEntry {
                                    order_id: id,
                                    side: opp,
                                    price: price,
                                });
                            let k2 = choose|k2: int|
                                0 <= k2 < b0.orders@.len() && b0.orders@[k2] == e;
                            assert(levels0[0].price != levels0[i].price);
                            if k1 != k2 {
                                assert(b0.orders@[k1].order_id == b0.orders@[k2].order_id);
                            }
                        }
                    };
                    assert(index_seq_has_entry(b1.orders@, e));
                } else {
                    assert(reduced_resting(b1.levels_of(opp)[0].orders@[j], q0[c + j]));
                    assert(q0[c + j].order_id == id);
                    assert(b0.index_has_entry(id, opp, price));
                    assert(p == price);
                    let e = IndexEntry { order_id: id, side: opp, price: price };
                    assert(!seq_has_id(consumed, id));
                    assert(index_seq_has_entry(b1.orders@, e));
                }
            }
        };
    };
}

impl OrderBook {
    /// Consume the head level of the opposite side against `incoming`,
    /// head-first (time priority), until the level empties or the incoming
    /// order fills. Fully consumed makers leave the queue and the id index;
    /// a maker that outlasts the incoming order stays at the head with its
    /// remaining quantity reduced. Returns the trades in execution order and
    /// the final records of the fully consumed makers, in the same order.
    pub(crate) fn process_level(&mut self, incoming: &mut Order, price: u64) -> (r: (
        Vec<Trade>,
        Vec<Order>,
    ))
        requires
            old(self).inv(),
            old(incoming).remaining_quantity > 0,
            old(self).levels_of(opposite(old(incoming).side)).len() > 0,
            old(self).levels_of(opposite(old(incoming).side))[0].price == price,
            old(incoming).instrument@ == old(self).instrument@,
        ensures
            final(self).inv(),
            final(self).instrument == old(self).instrument,
            final(self).levels_of(old(incoming).side) == old(self).levels_of(old(incoming).side),
            final(incoming).same_identity(*old(incoming)),
            // at least one execution, and remaining strictly decreases
            r.0@.len() >= 1,
            final(incoming).remaining_quantity < old(incoming).remaining_quantity,
            trades_qty_sum(r.0@) == old(incoming).remaining_quantity - final(incoming).remaining_quantity,
            final(incoming).status == if final(incoming).remaining_quantity == 0 {
                OrderStatus::Filled
            } else {
                OrderStatus::PartiallyFilled
            },
            // trades consume the old queue in FIFO order
            r.1@.len() <= r.0@.len() <= r.1@.len() + 1,
            r.0@.len() <= old(self).levels_of(opposite(old(incoming).side))[0].orders@.len(),
            forall|i: int|
                0 <= i < r.0@.len() ==> trade_matches(
                    #[trigger] r.0@[i],
                    *old(incoming),
                    old(self).levels_of(opposite(old(incoming).side))[0].orders@[i].order_id,
                    price,
                    old(self).instrument@,
                ),
            forall|i: int|
                0 <= i < r.0@.len() ==> (#[trigger] r.0@[i]).quantity <= old(self).levels_of(
                    opposite(old(incoming).side),
                )[0].orders@[i].remaining_quantity,
            forall|i: int|
                0 <= i < r.1@.len() ==> (#[trigger] r.0@[i]).quantity == old(self).levels_of(
                    opposite(old(incoming).side),
                )[0].orders@[i].remaining_quantity,
            forall|i: int|
                0 <= i < r.1@.len() ==> (#[trigger] r.1@[i]) == old(self).levels_of(
                    opposite(old(incoming).side),
                )[0].orders@[i].after_fill(old(self).levels_of(opposite(old(incoming).side))[0].orders@[i].remaining_quantity),
            // the incoming order stops only when filled or the level is gone
            final(incoming).remaining_quantity > 0 ==> r.1@.len() == old(self).levels_of(
                opposite(old(incoming).side),
            )[0].orders@.len(),
            // shape of the opposite side afterwards
            ({
                let opp = opposite(old(incoming).side);
                let q0 = old(self).levels_of(opp)[0].orders@;
                let c = r.1@.len() as int;
                let n = r.0@.len() as int;
                if c == q0.len() {
                    final(self).levels_of(opp) == old(self).levels_of(opp).skip(1)
                } else {
                    &&& final(self).levels_of(opp).len() == old(self).levels_of(opp).len()
                    &&& (forall|i: int|
                        1 <= i < old(self).levels_of(opp).len() ==> final(self).levels_of(opp)[i]
                            == old(self).levels_of(opp)[i])
                    &&& final(self).levels_of(opp)[0].price == price
                    &&& final(self).levels_of(opp)[0].orders@ == if n == c + 1 {
                        q0.skip(c).update(0, q0[c].after_fill(r.0@[n - 1].quantity))
                    } else {
                        q0.skip(c)
                    }
                }
            }),
            // the id index loses exactly the fully consumed makers
            index_minus_ids(old(self).orders@, r.1@, final(self).orders@),
    {
        let ghost b0: OrderBook = *self;
        let ghost inc0: Order = *incoming;
        let ghost opp: Side = opposite(inc0.side);
        let ghost q0: Seq<Order> = b0.levels_of(opp)[0].orders@;
        let ghost ix0: Seq<IndexEntry> = b0.orders@;

        let mut level: Level = match incoming.side {
            Side::Buy => self.asks.remove(0),
            Side::Sell => self.bids.remove(0),
        };
        let mut trades: Vec<Trade> = Vec::new();
        let mut filled: Vec<Order> = Vec::new();

        while level.orders.len() > 0 && incoming.remaining_quantity
            >= level.orders[0].remaining_quantity
            invariant
                b0.inv(),
                inc0.remaining_quantity > 0,
                opp == opposite(inc0.side),
                q0 == b0.levels_of(opp)[0].orders@,
                ix0 == b0.orders@,
                b0.levels_of(opp).len() > 0,
                b0.levels_of(opp)[0].price == price,
                inc0.instrument@ == b0.instrument@,
                // frame
                self.instrument == b0.instrument,
                self.levels_of(inc0.side) == b0.levels_of(inc0.side),
                self.levels_of(opp) == b0.levels_of(opp).skip(1),
                level.price == price,
                level.orders@ == q0.skip(filled@.len() as int),
                // progress
                trades@.len() == filled@.len() <= q0.len(),
                incoming.same_identity(inc0),
                trades_qty_sum(trades@) == inc0.remaining_quantity - incoming.remaining_quantity,
                trades@.len() == 0 ==> *incoming == inc0,
                trades@.len() > 0 ==> incoming.status == if incoming.remaining_quantity == 0 {
                    OrderStatus::Filled
                } else {
                    OrderStatus::PartiallyFilled
                },
                trades@.len() > 0 ==> incoming.remaining_quantity < inc0.remaining_quantity,
                forall|i: int|
                    0 <= i < trades@.len() ==> trade_matches(
                        #[trigger] trades@[i],
                        inc0,
                        q0[i].order_id,
                        price,
                        b0.instrument@,
                    ),
                forall|i: int|
                    0 <= i < trades@.len() ==> (#[trigger] trades@[i]).quantity
                        == q0[i].remaining_quantity,
                forall|i: int|
                    0 <= i < filled@.len() ==> (#[trigger] filled@[i]) == q0[i].after_fill(
                        q0[i].remaining_quantity,
                    ),
                // index bookkeeping
                forall|k1: int, k2: int|
                    0 <= k1 < k2 < self.orders@.len() ==> self.orders@[k1].order_id
                        != self.orders@[k2].order_id,
                forall|k: int|
                    0 <= k < self.orders@.len() ==> index_seq_has_entry(
                        ix0,
                        #[trigger] self.orders@[k],
                    ),
                forall|k0: int|
                    0 <= k0 < ix0.len() && !seq_has_id(
                        q0.take(filled@.len() as int),
                        ix0[k0].order_id,
                    ) ==> index_seq_has_entry(self.orders@, #[trigger] ix0[k0]),
                forall|j: int|
                    0 <= j < filled@.len() ==> !index_seq_has(
                        self.orders@,
                        (#[trigger] filled@[j]).order_id,
                    ),
            decreases level.orders@.len(),
        {
            let ghost c: int = filled@.len() as int;
            let mut resting: Order = level.orders.remove(0);
            assert(resting == q0[c]);
            let tq: u64 = resting.remaining_quantity;
            incoming.fill(tq);
            resting.fill(tq);
            let (buy_id, sell_id): (u128, u128) = if incoming.side == Side::Buy {
                (incoming.order_id, resting.order_id)
            } else {
                (resting.order_id, incoming.order_id)
            };
            let t: Trade = Trade::new(
                self.instrument.clone(),
                price,
                tq,
                buy_id,
                sell_id,
                incoming.side,
            );
            let ghost ts_prev: Seq<Trade> = trades@;
            trades.push(t);
            proof {
                assert(trades@.drop_last() =~= ts_prev);
            }
            let ghost pre_ix: Seq<IndexEntry> = self.orders@;
            let found: bool = index_remove(&mut self.orders, resting.order_id);
            proof {
                // the maker was indexed (book invariant), so the removal found it
                assert(b0.queues_indexed(opp));
                assert(b0.levels_of(opp)[0].orders@[c].order_id == resting.order_id);
                assert(b0.index_has_entry(resting.order_id, opp, price));
                let e = IndexEntry { order_id: resting.order_id, side: opp, price: price };
                assert(index_seq_has_entry(ix0, e));
                assert(!seq_has_id(q0.take(c), e.order_id)) by {
                    if seq_has_id(q0.take(c), e.order_id) {
                        let j = choose|j: int|
                            0 <= j < c && q0.take(c)[j].order_id == e.order_id;
                        assert(q0[j].order_id == q0[c].order_id);
                        assert(b0.levels_of(opp)[0].wf(b0.instrument@, opp));
                    }
                };
                assert(index_seq_has_entry(pre_ix, e));
                assert(found);
                let k = choose|k: int|
                    0 <= k < pre_ix.len() && pre_ix[k].order_id == resting.order_id
                        && self.orders@ == pre_ix.remove(k);
                assert forall|k2: int| 0 <= k2 < self.orders@.len() implies index_seq_has_entry(
                    ix0,
                    #[trigger] self.orders@[k2],
                ) by {
                    if k2 < k {
                        assert(self.orders@[k2] == pre_ix[k2]);
                    } else {
                        assert(self.orders@[k2] == pre_ix[k2 + 1]);
                    }
                };
                assert forall|k0: int|
                    0 <= k0 < ix0.len() && !seq_has_id(
                        q0.take(filled@.len() as int + 1),
                        ix0[k0].order_id,
                    ) implies index_seq_has_entry(self.orders@, #[trigger] ix0[k0]) by {
                    assert(!seq_has_id(q0.take(filled@.len() as int), ix0[k0].order_id)) by {
                        if seq_has_id(q0.take(filled@.len() as int), ix0[k0].order_id) {
                            let j = choose|j: int|
                                0 <= j < filled@.len() && q0.take(filled@.len() as int)[j].order_id
                                    == ix0[k0].order_id;
                            assert(q0.take(filled@.len() as int + 1)[j] == q0[j]);
                        }
                    };
                    assert(index_seq_has_entry(pre_ix, ix0[k0]));
                    let kp = choose|kp: int| 0 <= kp < pre_ix.len() && pre_ix[kp] == ix0[k0];
                    assert(ix0[k0].order_id != resting.order_id) by {
                        assert(q0.take(filled@.len() as int + 1)[c] == q0[c]);
                    };
                    assert(kp != k);
                    if kp < k {
                        assert(self.orders@[kp] == pre_ix[kp]);
                    } else {
                        assert(self.orders@[kp - 1] == pre_ix[kp]);
                    }
                };
                assert forall|j: int|
                    0 <= j < filled@.len() + 1 implies !index_seq_has(
                        self.orders@,
                        q0[j].order_id,
                    ) by {
                    if j < filled@.len() {
                        assert(!index_seq_has(pre_ix, filled@[j].order_id));
                        assert(filled@[j].order_id == q0[j].order_id);
                        if index_seq_has(self.orders@, q0[j].order_id) {
                            let k2 = choose|k2: int|
                                0 <= k2 < self.orders@.len() && self.orders@[k2].order_id
                                    == q0[j].order_id;
                            if k2 < k {
                                assert(pre_ix[k2].order_id == q0[j].order_id);
                            } else {
                                assert(pre_ix[k2 + 1].order_id == q0[j].order_id);
                            }
                        }
                    } else {
                        // j == c: the entry we just removed was the only one with this id
                        if index_seq_has(self.orders@, q0[j].order_id) {
                            let k2 = choose|k2: int|
                                0 <= k2 < self.orders@.len() && self.orders@[k2].order_id
                                    == q0[j].order_id;
                            if k2 < k {
                                assert(pre_ix[k2].order_id == resting.order_id);
                            } else {
                                assert(pre_ix[k2 + 1].order_id == resting.order_id);
                            }
                        }
                    }
                };
            }
            filled.push(resting);
            proof {
                assert(level.orders@ =~= q0.skip(filled@.len() as int));
                assert(forall|i: int|
                    0 <= i < filled@.len() ==> (#[trigger] filled@[i]) == q0[i].after_fill(
                        q0[i].remaining_quantity,
                    ));
            }
        }

        // a maker larger than the rest of the incoming order: partial fill,
        // the maker keeps the head of the queue
        if incoming.remaining_quantity > 0 && level.orders.len() > 0 {
            let ghost c: int = filled@.len() as int;
            let mut resting: Order = level.orders.remove(0);
            assert(resting == q0[c]);
            let tq: u64 = incoming.remaining_quantity;
            incoming.fill(tq);
            resting.fill(tq);
            let (buy_id, sell_id): (u128, u128) = if incoming.side == Side::Buy {
                (incoming.order_id, resting.order_id)
            } else {
                (resting.order_id, incoming.order_id)
            };
            let t: Trade = Trade::new(
                self.instrument.clone(),
                price,
                tq,
                buy_id,
                sell_id,
                incoming.side,
            );
            let ghost ts_prev: Seq<Trade> = trades@;
            trades.push(t);
            level.orders.insert(0, resting);
            proof {
                assert(trades@.drop_last() =~= ts_prev);
                assert(level.orders@ =~= q0.skip(c).update(0, q0[c].after_fill(tq)));
            }
        }

        let ghost lv: Level = level;
        let level_nonempty: bool = level.orders.len() > 0;
        if level_nonempty {
            match incoming.side {
                Side::Buy => self.asks.insert(0, level),
                Side::Sell => self.bids.insert(0, level),
            }
        }

        proof {
            let c = filled@.len() as int;
            let n = trades@.len() as int;
            assert(opposite(opp) == inc0.side);
            assert(b0.side_wf(opp));
            assert(b0.levels_of(opp)[0].wf(b0.instrument@, opp));
            assert forall|j: int| 0 <= j < c implies (#[trigger] filled@[j]).order_id
                == q0[j].order_id by {
                assert(filled@[j] == q0[j].after_fill(q0[j].remaining_quantity));
            };
            assert(index_minus_ids(ix0, filled@, self.orders@)) by {
                assert forall|k0: int|
                    0 <= k0 < ix0.len() && !seq_has_id(filled@, ix0[k0].order_id)
                        implies index_seq_has_entry(self.orders@, #[trigger] ix0[k0]) by {
                    assert(!seq_has_id(q0.take(c), ix0[k0].order_id)) by {
                        if seq_has_id(q0.take(c), ix0[k0].order_id) {
                            let j = choose|j: int|
                                0 <= j < c && q0.take(c)[j].order_id == ix0[k0].order_id;
                            assert(q0.take(c)[j] == q0[j]);
                            assert(filled@[j].order_id == q0[j].order_id);
                        }
                    };
                };
            };
            if c == q0.len() {
                assert(lv.orders@.len() == 0);
                assert(self.levels_of(opp) == b0.levels_of(opp).skip(1));
            } else {
                assert(lv.orders@.len() > 0);
                assert(self.levels_of(opp) == b0.levels_of(opp).skip(1).insert(0, lv));
                assert(self.levels_of(opp).len() == b0.levels_of(opp).len());
                assert forall|i: int| 1 <= i < b0.levels_of(opp).len() implies self.levels_of(
                    opp,
                )[i] == b0.levels_of(opp)[i] by {
                    assert(self.levels_of(opp)[i] == b0.levels_of(opp).skip(1)[i - 1]);
                };
                assert(self.levels_of(opp)[0] == lv);
                assert(lv.price == price);
                assert(lv.orders@.len() == q0.len() - c);
                assert forall|j: int| 0 <= j < q0.len() - c implies reduced_resting(
                    #[trigger] lv.orders@[j],
                    q0[c + j],
                ) by {
                    assert(resting_order_wf(q0[c + j], b0.instrument@, opp, price));
                    if n == c + 1 && j == 0 {
                        assert(lv.orders@[0] == q0[c].after_fill(trades@[n - 1].quantity));
                    } else {
                        assert(lv.orders@[j] == q0.skip(c)[j]);
                        assert(q0.skip(c)[j] == q0[c + j]);
                    }
                };
            }
            lemma_head_level_consumed_inv(b0, *self, opp, filled@, price);
        }
        (trades, filled)
    }

    /// Match `incoming` against the opposite side, strictly best-price
    /// first, each level head-first, until the order fills, the opposite
    /// side empties, or its best price no longer crosses. Returns the
    /// trades in execution order and the fully consumed makers' final
    /// records.
    #[verifier::rlimit(100)]
    pub(crate) fn match_order(&mut self, incoming: &mut Order) -> (r: (Vec<Trade>, Vec<Order>))
        requires
            old(self).inv(),
            old(incoming).instrument@ == old(self).instrument@,
        ensures
            final(self).inv(),
            final(self).instrument == old(self).instrument,
            final(self).levels_of(old(incoming).side) == old(self).levels_of(old(incoming).side),
            final(incoming).same_identity(*old(incoming)),
            final(incoming).remaining_quantity <= old(incoming).remaining_quantity,
            trades_qty_sum(r.0@) == old(incoming).remaining_quantity - final(incoming).remaining_quantity,
            // untouched if and only if nothing crossed
            r.0@.len() == 0 ==> *final(self) == *old(self) && *final(incoming) == *old(incoming),
            r.0@.len() == 0 <==> (old(incoming).remaining_quantity == 0 || old(self).levels_of(
                opposite(old(incoming).side),
            ).len() == 0 || !crosses(
                *old(incoming),
                old(self).levels_of(opposite(old(incoming).side))[0].price,
            )),
            r.0@.len() > 0 ==> final(incoming).status == if final(incoming).remaining_quantity
                == 0 {
                OrderStatus::Filled
            } else {
                OrderStatus::PartiallyFilled
            },
            // every trade: taker attribution, maker resting at its own price
            forall|i: int|
                0 <= i < r.0@.len() ==> trade_matches(
                    #[trigger] r.0@[i],
                    *old(incoming),
                    r.0@[i].maker_id(),
                    r.0@[i].price,
                    old(self).instrument@,
                ),
            forall|i: int| 0 <= i < r.0@.len() ==> crosses(*old(incoming), (#[trigger] r.0@[i]).price),
            forall|i: int|
                0 <= i < r.0@.len() ==> has_resting(
                    *old(self),
                    opposite(old(incoming).side),
                    (#[trigger] r.0@[i]).price,
                    r.0@[i].maker_id(),
                ),
            // best price first: prices never improve along the trade list,
            // and no remaining level beats any executed price
            forall|i: int, j: int|
                0 <= i <= j < r.0@.len() ==> !better(
                    opposite(old(incoming).side),
                    (#[trigger] r.0@[j]).price,
                    (#[trigger] r.0@[i]).price,
                ),
            forall|i: int, li: int|
                0 <= i < r.0@.len() && 0 <= li < final(self).levels_of(
                    opposite(old(incoming).side),
                ).len() ==> !better(
                    opposite(old(incoming).side),
                    (#[trigger] final(self).levels_of(opposite(old(incoming).side))[li]).price,
                    (#[trigger] r.0@[i]).price,
                ),
            // the order stops short of filling only when nothing crosses any more
            final(incoming).remaining_quantity > 0 ==> forall|li: int|
                0 <= li < final(self).levels_of(opposite(old(incoming).side)).len() ==> !crosses(
                    *old(incoming),
                    (#[trigger] final(self).levels_of(opposite(old(incoming).side))[li]).price,
                ),
            // fully consumed makers and the id index
            r.1@.len() <= r.0@.len() <= r.1@.len() + 1,
            forall|i: int|
                0 <= i < r.1@.len() ==> (#[trigger] r.1@[i]).remaining_quantity == 0
                    && r.1@[i].status == OrderStatus::Filled,
            index_minus_ids(old(self).orders@, r.1@, final(self).orders@),
            final(self).levels_of(opposite(old(incoming).side)).len() <= old(self).levels_of(
                opposite(old(incoming).side),
            ).len(),
            // strict FIFO within a price level
            forall|i: int, j: int|
                0 <= i < j < r.0@.len() && r.0@[i].price == r.0@[j].price ==> fifo_pair(
                    *old(self),
                    opposite(old(incoming).side),
                    #[trigger] r.0@[i],
                    #[trigger] r.0@[j],
                ),
            // per-level verdicts: each pre-book opposite level is untouched,
            // consumed whole, or consumed up to a final partial maker, and
            // the surviving levels' prices all come from the pre-book
            forall|li: int|
                0 <= li < old(self).levels_of(opposite(old(incoming).side)).len()
                    ==> level_outcome(
                    r.0@,
                    (#[trigger] old(self).levels_of(opposite(old(incoming).side))[li]),
                    final(self).levels_of(opposite(old(incoming).side)),
                ),
            forall|li1: int|
                0 <= li1 < final(self).levels_of(opposite(old(incoming).side)).len()
                    ==> price_among(
                    old(self).levels_of(opposite(old(incoming).side)),
                    old(self).levels_of(opposite(old(incoming).side)).len() as int,
                    (#[trigger] final(self).levels_of(opposite(old(incoming).side))[li1]).price,
                ),
    {
        let ghost b0: OrderBook = *self;
        let ghost inc0: Order = *incoming;
        let ghost opp: Side = opposite(inc0.side);
        let ghost mut d: int = 0;
        let mut trades: Vec<Trade> = Vec::new();
        let mut filled: Vec<Order> = Vec::new();

        proof {
            assert(self.levels_of(opp) =~= b0.levels_of(opp).skip(0));
            assert(side_after_consuming(b0.levels_of(opp), 0, trades@, self.levels_of(opp))) by {
                reveal(side_after_consuming);
            };
        }

        loop
            invariant
                b0.inv(),
                opp == opposite(inc0.side),
                inc0.instrument@ == b0.instrument@,
                self.inv(),
                self.instrument == b0.instrument,
                self.levels_of(inc0.side) == b0.levels_of(inc0.side),
                incoming.same_identity(inc0),
                incoming.remaining_quantity <= inc0.remaining_quantity,
                trades_qty_sum(trades@) == inc0.remaining_quantity - incoming.remaining_quantity,
                trades@.len() == 0 ==> *self == b0 && *incoming == inc0,
                trades@.len() > 0 ==> incoming.status == if incoming.remaining_quantity == 0 {
                    OrderStatus::Filled
                } else {
                    OrderStatus::PartiallyFilled
                },
                forall|i: int|
                    0 <= i < trades@.len() ==> trade_matches(
                        #[trigger] trades@[i],
                        inc0,
                        trades@[i].maker_id(),
                        trades@[i].price,
                        b0.instrument@,
                    ),
                forall|i: int|
                    0 <= i < trades@.len() ==> crosses(inc0, (#[trigger] trades@[i]).price),
                forall|i: int|
                    0 <= i < trades@.len() ==> has_resting(
                        b0,
                        opp,
                        (#[trigger] trades@[i]).price,
                        trades@[i].maker_id(),
                    ),
                forall|i: int, j: int|
                    0 <= i <= j < trades@.len() ==> !better(
                        opp,
                        (#[trigger] trades@[j]).price,
                        (#[trigger] trades@[i]).price,
                    ),
                forall|i: int, li: int|
                    0 <= i < trades@.len() && 0 <= li < self.levels_of(opp).len() ==> !better(
                        opp,
                        (#[trigger] self.levels_of(opp)[li]).price,
                        (#[trigger] trades@[i]).price,
                    ),
                forall|i: int, j: int|
                    0 <= i < j < trades@.len() && trades@[i].price == trades@[j].price
                        ==> fifo_pair(b0, opp, #[trigger] trades@[i], #[trigger] trades@[j]),
                filled@.len() <= trades@.len() <= filled@.len() + 1,
                incoming.remaining_quantity > 0 ==> trades@.len() == filled@.len(),
                forall|i: int|
                    0 <= i < filled@.len() ==> (#[trigger] filled@[i]).remaining_quantity == 0
                        && filled@[i].status == OrderStatus::Filled,
                index_minus_ids(b0.orders@, filled@, self.orders@),
                // consumption bookkeeping: `d` levels taken off the front
                0 <= d <= b0.levels_of(opp).len(),
                incoming.remaining_quantity > 0 ==> self.levels_of(opp) == b0.levels_of(
                    opp,
                ).skip(d) && (forall|i: int|
                    0 <= i < trades@.len() ==> price_among(
                        b0.levels_of(opp),
                        d,
                        (#[trigger] trades@[i]).price,
                    )),
                side_after_consuming(b0.levels_of(opp), d, trades@, self.levels_of(opp)),
                forall|li: int|
                    0 <= li < d ==> level_fully_consumed(
                        trades@,
                        (#[trigger] b0.levels_of(opp)[li]),
                        self.levels_of(opp),
                    ),
                // sources of an empty trade list
                inc0.remaining_quantity == 0 ==> trades@.len() == 0,
                self.levels_of(opp).len() <= b0.levels_of(opp).len(),
                b0.levels_of(opp).len() == 0 ==> trades@.len() == 0,
                (b0.levels_of(opp).len() > 0 && !crosses(inc0, b0.levels_of(opp)[0].price))
                    ==> trades@.len() == 0,
            ensures
                trades@.len() == 0 ==> (inc0.remaining_quantity == 0 || b0.levels_of(opp).len()
                    == 0 || !crosses(inc0, b0.levels_of(opp)[0].price)),
                trades@.len() > 0 || incoming.remaining_quantity == 0 || self.levels_of(
                    opp,
                ).len() == 0 || !crosses(inc0, self.levels_of(opp)[0].price),
                incoming.remaining_quantity > 0 ==> forall|li: int|
                    0 <= li < self.levels_of(opp).len() ==> !crosses(
                        inc0,
                        (#[trigger] self.levels_of(opp)[li]).price,
                    ),
            decreases self.levels_of(opp).len() + (if incoming.remaining_quantity > 0 {
                1int
            } else {
                0int
            }),
        {
            if incoming.is_filled() {
                break ;
            }
            let has_levels: bool = match incoming.side {
                Side::Buy => self.asks.len() > 0,
                Side::Sell => self.bids.len() > 0,
            };
            if !has_levels {
                break ;
            }
            let best_price: u64 = match incoming.side {
                Side::Buy => self.asks[0].price,
                Side::Sell => self.bids[0].price,
            };
            let cross: bool = match incoming.price {
                Option::None => true,
                Option::Some(lim) => if incoming.side == Side::Buy {
                    best_price <= lim
                } else {
                    best_price >= lim
                },
            };
            if !cross {
                proof {
                    assert(crosses(inc0, self.levels_of(opp)[0].price) == crosses(
                        *incoming,
                        self.levels_of(opp)[0].price,
                    ));
                    assert forall|li: int| 0 <= li < self.levels_of(opp).len() implies !crosses(
                        inc0,
                        (#[trigger] self.levels_of(opp)[li]).price,
                    ) by {
                        if li > 0 {
                            assert(better(
                                opp,
                                self.levels_of(opp)[0].price,
                                self.levels_of(opp)[li].price,
                            ));
                        }
                    };
                }
                break ;
            }
            let ghost prev: OrderBook = *self;
            let ghost previnc: Order = *incoming;
            let ghost ts_prev: Seq<Trade> = trades@;
            let ghost fs_prev: Seq<Order> = filled@;
            let (mut ts, mut fs): (Vec<Trade>, Vec<Order>) = self.process_level(
                incoming,
                best_price,
            );
            let ghost ts_new: Seq<Trade> = ts@;
            let ghost fs_new: Seq<Order> = fs@;
            trades.append(&mut ts);
            filled.append(&mut fs);
            proof {
                let q0 = prev.levels_of(opp)[0].orders@;
                assert(trades@ == ts_prev + ts_new);
                assert(filled@ == fs_prev + fs_new);
                lemma_trades_qty_sum_concat(ts_prev, ts_new);
                lemma_index_minus_compose(b0.orders@, fs_prev, prev.orders@, fs_new, self.orders@);
                // new trades happened at the then-best price, against makers
                // of the then-head level, all of whom rested in the original
                // book at that price
                assert forall|i: int|
                    ts_prev.len() <= i < trades@.len() implies trade_matches(
                    #[trigger] trades@[i],
                    inc0,
                    trades@[i].maker_id(),
                    trades@[i].price,
                    b0.instrument@,
                ) && crosses(inc0, trades@[i].price) && has_resting(
                    b0,
                    opp,
                    trades@[i].price,
                    trades@[i].maker_id(),
                ) by {
                    let i2 = i - ts_prev.len();
                    assert(trades@[i] == ts_new[i2]);
                    assert(trade_matches(
                        ts_new[i2],
                        previnc,
                        q0[i2].order_id,
                        best_price,
                        prev.instrument@,
                    ));
                    assert(ts_new[i2].taker_side == previnc.side && previnc.side == inc0.side);
                    assert(ts_new[i2].maker_id() == q0[i2].order_id);
                    assert(crosses(inc0, best_price)) by {
                        assert(previnc.price == inc0.price && previnc.side == inc0.side);
                    };
                    assert(has_resting(b0, opp, best_price, q0[i2].order_id)) by {
                        assert(prev.levels_of(opp) == b0.levels_of(opp).skip(d));
                        assert(b0.levels_of(opp)[d] == prev.levels_of(opp)[0]);
                        assert(b0.levels_of(opp)[d].price == best_price);
                        assert(b0.levels_of(opp)[d].orders@[i2].order_id == q0[i2].order_id);
                        assert(b0.levels_of(opp)[d].contains_id(q0[i2].order_id));
                    };
                };
                // prices never improve: the new price is the then-best, and
                // every older trade price was at least as good as the head
                // level that produced the new ones
                assert forall|i: int, j: int|
                    0 <= i <= j < trades@.len() implies !better(
                    opp,
                    (#[trigger] trades@[j]).price,
                    (#[trigger] trades@[i]).price,
                ) by {
                    if j >= ts_prev.len() {
                        assert(trades@[j].price == best_price);
                        if i < ts_prev.len() {
                            assert(trades@[i] == ts_prev[i]);
                            assert(!better(opp, prev.levels_of(opp)[0].price, ts_prev[i].price));
                        } else {
                            assert(trades@[i].price == best_price);
                        }
                    } else {
                        assert(trades@[i] == ts_prev[i] && trades@[j] == ts_prev[j]);
                    }
                };
                // the shrunken opposite side still holds only orders that
                // rested in the original book, and no surviving level beats
                // any executed price
                let c = fs_new.len() as int;
                let n = ts_new.len() as int;
                assert forall|i: int, li: int|
                    0 <= i < trades@.len() && 0 <= li < self.levels_of(opp).len() implies !better(
                    opp,
                    (#[trigger] self.levels_of(opp)[li]).price,
                    (#[trigger] trades@[i]).price,
                ) by {
                    let lp = self.levels_of(opp)[li].price;
                    // surviving level prices all come from the previous book
                    assert(!better(opp, lp, prev.levels_of(opp)[0].price)) by {
                        if c == q0.len() {
                            assert(self.levels_of(opp)[li] == prev.levels_of(opp)[li + 1]);
                            assert(better(
                                opp,
                                prev.levels_of(opp)[0].price,
                                prev.levels_of(opp)[li + 1].price,
                            ));
                        } else {
                            if li >= 1 {
                                assert(self.levels_of(opp)[li] == prev.levels_of(opp)[li]);
                                assert(better(
                                    opp,
                                    prev.levels_of(opp)[0].price,
                                    prev.levels_of(opp)[li].price,
                                ));
                            } else {
                                assert(lp == prev.levels_of(opp)[0].price);
                            }
                        }
                    };
                    if i < ts_prev.len() {
                        assert(trades@[i] == ts_prev[i]);
                        assert(!better(opp, prev.levels_of(opp)[0].price, ts_prev[i].price));
                    } else {
                        assert(trades@[i].price == best_price && best_price == prev.levels_of(opp)[0].price);
                    }
                };
                assert forall|i: int|
                    fs_prev.len() <= i < filled@.len() implies (
                #[trigger] filled@[i]).remaining_quantity == 0 && filled@[i].status
                    == OrderStatus::Filled by {
                    let i2 = i - fs_prev.len();
                    assert(filled@[i] == fs_new[i2]);
                    assert(fs_new[i2] == q0[i2].after_fill(q0[i2].remaining_quantity));
                };
                assert forall|i: int, j: int|
                    0 <= i < j < trades@.len() && trades@[i].price == trades@[j].price
                        implies fifo_pair(b0, opp, #[trigger] trades@[i], #[trigger] trades@[j]) by {
                    if j < ts_prev.len() {
                        assert(trades@[i] == ts_prev[i] && trades@[j] == ts_prev[j]);
                    } else if i < ts_prev.len() {
                        // impossible: the new batch's price was never used before
                        assert(trades@[i] == ts_prev[i]);
                        assert(trades@[j].price == best_price && best_price
                            == prev.levels_of(opp)[0].price);
                        assert(prev.levels_of(opp) == b0.levels_of(opp).skip(d));
                        assert(prev.levels_of(opp)[0] == b0.levels_of(opp)[d]);
                        assert(price_among(b0.levels_of(opp), d, ts_prev[i].price));
                        let lj = choose|lj: int|
                            0 <= lj < d && lj < b0.levels_of(opp).len() && b0.levels_of(
                                opp,
                            )[lj].price == ts_prev[i].price;
                        assert(better(
                            opp,
                            b0.levels_of(opp)[lj].price,
                            b0.levels_of(opp)[d].price,
                        ));
                    } else {
                        let i2 = i - ts_prev.len();
                        let j2 = j - ts_prev.len();
                        assert(trades@[i] == ts_new[i2] && trades@[j] == ts_new[j2]);
                        assert(trade_matches(
                            ts_new[i2],
                            previnc,
                            q0[i2].order_id,
                            best_price,
                            prev.instrument@,
                        ));
                        assert(trade_matches(
                            ts_new[j2],
                            previnc,
                            q0[j2].order_id,
                            best_price,
                            prev.instrument@,
                        ));
                        assert(ts_new[i2].maker_id() == q0[i2].order_id);
                        assert(ts_new[j2].maker_id() == q0[j2].order_id);
                        assert(prev.levels_of(opp) == b0.levels_of(opp).skip(d));
                        assert(b0.levels_of(opp)[d] == prev.levels_of(opp)[0]);
                        assert(fifo_at(b0, opp, ts_new[i2], ts_new[j2], d, i2, j2)) by {
                            assert(b0.levels_of(opp)[d].orders@ == q0);
                            assert(b0.levels_of(opp)[d].price == best_price);
                        };
                        assert(fifo_pair(b0, opp, trades@[i], trades@[j]));
                    }
                };
                // consumption bookkeeping: the batch just executed settles
                // the then-head level, which was pre-book level `d`
                let c = fs_new.len() as int;
                assert(prev.levels_of(opp) == b0.levels_of(opp).skip(d));
                assert(d < b0.levels_of(opp).len());
                assert(b0.levels_of(opp)[d] == prev.levels_of(opp)[0]);
                lemma_settle_head_level(
                    opp,
                    b0.levels_of(opp),
                    prev.levels_of(opp),
                    self.levels_of(opp),
                    d,
                    ts_prev,
                    ts_new,
                    trades@,
                    c,
                    previnc,
                    prev.instrument@,
                );
                if c == q0.len() {
                    d = d + 1;
                }
            }
        }
        proof {
            lemma_side_outcomes(opp, b0.levels_of(opp), self.levels_of(opp), d, trades@);
        }
        (trades, filled)
    }

    /// Enqueue an unfilled LIMIT remainder at the tail of its price level
    /// (creating the level at its sorted position if absent) and index it.
    fn rest_order(&mut self, order: Order, price: u64)
        requires
            old(self).inv(),
            resting_order_wf(order, old(self).instrument@, order.side, price),
            !old(self).index_has(order.order_id),
        ensures
            final(self).inv(),
            final(self).instrument == old(self).instrument,
            final(self).levels_of(opposite(order.side)) == old(self).levels_of(
                opposite(order.side),
            ),
            final(self).orders@ == old(self).orders@.push(
                IndexEntry { order_id: order.order_id, side: order.side, price: price },
            ),
            rest_into(
                old(self).levels_of(order.side),
                order,
                price,
                final(self).levels_of(order.side),
            ),
    {
        let ghost b0: OrderBook = *self;
        let ghost own: Side = order.side;
        let ghost levels0: Seq<Level> = b0.levels_of(own);
        let side: Side = order.side;
        let oid: u128 = order.order_id;
        let is_buy: bool = side == Side::Buy;

        // find the insertion point: the first level not better than `price`
        let n: usize = match side {
            Side::Buy => self.bids.len(),
            Side::Sell => self.asks.len(),
        };
        let mut k: usize = 0;
        while k < n
            invariant
                *self == b0,
                n == b0.levels_of(own).len(),
                own == side,
                0 <= k <= n,
                is_buy == (side == Side::Buy),
                forall|i: int| 0 <= i < k ==> better(own, b0.levels_of(own)[i].price, price),
            ensures
                *self == b0,
                0 <= k <= n,
                forall|i: int| 0 <= i < k ==> better(own, b0.levels_of(own)[i].price, price),
                k < n ==> !better(own, b0.levels_of(own)[k as int].price, price),
            decreases n - k,
        {
            let lp: u64 = match side {
                Side::Buy => self.bids[k].price,
                Side::Sell => self.asks[k].price,
            };
            let goes_on: bool = if is_buy {
                lp > price
            } else {
                lp < price
            };
            if !goes_on {
                break ;
            }
            k = k + 1;
        }

        let same_price: bool = if k < n {
            let lp: u64 = match side {
                Side::Buy => self.bids[k].price,
                Side::Sell => self.asks[k].price,
            };
            lp == price
        } else {
            false
        };

        if same_price {
            // append to the existing level's FIFO tail
            let mut lvl: Level = match side {
                Side::Buy => self.bids.remove(k),
                Side::Sell => self.asks.remove(k),
            };
            lvl.orders.push(order);
            let ghost lvlg: Level = lvl;
            match side {
                Side::Buy => self.bids.insert(k, lvl),
                Side::Sell => self.asks.insert(k, lvl),
            }
            proof {
                assert(lvlg.price == price);
                assert(lvlg.orders@ == levels0[k as int].orders@.push(order));
                assert(self.levels_of(own) =~= levels0.update(k as int, lvlg));
            }
        } else {
            // open a fresh level at the sorted position
            let mut q: Vec<Order> = Vec::new();
            q.push(order);
            let lvl: Level = Level { price: price, orders: q };
            match side {
                Side::Buy => self.bids.insert(k, lvl),
                Side::Sell => self.asks.insert(k, lvl),
            }
            proof {
                assert forall|li: int| 0 <= li < levels0.len() implies levels0[li].price
                    != price by {
                    if li < k {
                        assert(better(own, levels0[li].price, price));
                    } else {
                        assert(self.levels_of(own)[li + 1] == levels0[li]);
                        assert(!better(own, levels0[k as int].price, price));
                        if li > k {
                            assert(better(own, levels0[k as int].price, levels0[li].price));
                        }
                    }
                };
            }
        }
        self.orders.push(IndexEntry { order_id: oid, side: side, price: price });

        proof {
            let levels1 = self.levels_of(own);
            assert(rest_into(levels0, order, price, levels1)) by {
                if same_price {
                    assert(levels0[k as int].price == price);
                    assert(levels1[k as int].orders@ == levels0[k as int].orders@.push(order));
                    assert(rested_at_existing(levels0, order, price, levels1, k as int));
                } else {
                    assert forall|li: int| 0 <= li < levels0.len() implies levels0[li].price
                        != price by {
                        if li < k {
                            assert(better(own, levels0[li].price, price));
                        } else {
                            assert(!better(own, levels0[k as int].price, price));
                            if li > k {
                                assert(better(own, levels0[k as int].price, levels0[li].price));
                            }
                        }
                    };
                    assert(levels1[k as int].price == price && levels1[k as int].orders@.len() == 1
                        && levels1[k as int].orders@[0] == order);
                    assert(rested_at_new(levels0, order, price, levels1, k as int));
                }
            };
            // the order's id is on no queue of b0, since every queued id is
            // indexed and the index lacks it
            assert forall|s: Side, li: int, j: int|
                0 <= li < b0.levels_of(s).len() && 0 <= j < b0.levels_of(s)[li].orders@.len()
                    implies (#[trigger] b0.levels_of(s)[li].orders@[j]).order_id != oid by {
                if b0.levels_of(s)[li].orders@[j].order_id == oid {
                    assert(b0.queues_indexed(s));
                    assert(b0.index_has_entry(oid, s, b0.levels_of(s)[li].price));
                }
            };
            // well-formed sides
            assert(self.side_wf(own)) by {
                if same_price {
                    assert forall|i: int, j: int|
                        0 <= i < j < levels1.len() implies better(
                        own,
                        levels1[i].price,
                        levels1[j].price,
                    ) by {
                        assert(levels1[i].price == levels0[i].price);
                        assert(levels1[j].price == levels0[j].price);
                    };
                    assert forall|i: int| 0 <= i < levels1.len() implies (
                    #[trigger] levels1[i]).wf(self.instrument@, own) by {
                        assert(levels0[i].wf(b0.instrument@, own));
                        if i == k {
                            assert(levels1[i].orders@ == levels0[i].orders@.push(order));
                            assert forall|j1: int, j2: int|
                                0 <= j1 < j2 < levels1[i].orders@.len() implies levels1[i].orders@[j1].order_id
                                != levels1[i].orders@[j2].order_id by {
                                if j2 == levels1[i].orders@.len() - 1 {
                                    assert(levels1[i].orders@[j2] == order);
                                    assert(levels0[i].orders@[j1].order_id != oid);
                                }
                            };
                        }
                    };
                } else {
                    assert forall|i: int, j: int|
                        0 <= i < j < levels1.len() implies better(
                        own,
                        levels1[i].price,
                        levels1[j].price,
                    ) by {
                        if j < k {
                            assert(levels1[i] == levels0[i] && levels1[j] == levels0[j]);
                        } else if i > k {
                            assert(levels1[i] == levels0[i - 1] && levels1[j] == levels0[j - 1]);
                        } else if i < k && j == k {
                            assert(levels1[i] == levels0[i]);
                            assert(better(own, levels0[i].price, price));
                        } else if i == k {
                            assert(levels1[j] == levels0[j - 1]);
                            assert(!better(own, levels0[k as int].price, price));
                            assert(levels0[k as int].price != price);
                            if j - 1 > k {
                                assert(better(own, levels0[k as int].price, levels0[j - 1].price));
                            }
                        } else {
                            // i < k < j
                            assert(levels1[i] == levels0[i] && levels1[j] == levels0[j - 1]);
                            assert(better(own, levels0[i].price, price));
                            assert(!better(own, levels0[k as int].price, price));
                            assert(levels0[k as int].price != price);
                            if j - 1 > k {
                                assert(better(own, levels0[k as int].price, levels0[j - 1].price));
                            }
                        }
                    };
                    assert forall|i: int| 0 <= i < levels1.len() implies (
                    #[trigger] levels1[i]).wf(self.instrument@, own) by {
                        if i < k {
                            assert(levels1[i] == levels0[i]);
                            assert(levels0[i].wf(b0.instrument@, own));
                        } else if i > k {
                            assert(levels1[i] == levels0[i - 1]);
                            assert(levels0[i - 1].wf(b0.instrument@, own));
                        }
                    };
                }
            };
            assert(self.side_wf(opposite(own))) by {
                assert(self.levels_of(opposite(own)) == b0.levels_of(opposite(own)));
                assert(b0.side_wf(opposite(own)));
                assert forall|i: int| 0 <= i < self.levels_of(opposite(own)).len() implies (
                #[trigger] self.levels_of(opposite(own))[i]).wf(self.instrument@, opposite(own)) by {
                    assert(b0.levels_of(opposite(own))[i].wf(b0.instrument@, opposite(own)));
                };
            };
            // index: uniqueness, entries point home, queues indexed
            let e = IndexEntry { order_id: oid, side: side, price: price };
            assert forall|k1: int, k2: int|
                0 <= k1 < k2 < self.orders@.len() implies self.orders@[k1].order_id
                != self.orders@[k2].order_id by {
                if k2 == self.orders@.len() - 1 {
                    assert(self.orders@[k1] == b0.orders@[k1]);
                    if b0.orders@[k1].order_id == oid {
                        assert(b0.index_has(oid));
                    }
                }
            };
            assert forall|k2: int| 0 <= k2 < self.orders@.len() implies self.index_entry_ok(
                #[trigger] self.orders@[k2],
            ) by {
                if k2 == self.orders@.len() - 1 {
                    assert(self.orders@[k2] == e);
                    if same_price {
                        assert(levels1[k as int].price == price);
                        assert(levels1[k as int].orders@.last() == order);
                        assert(levels1[k as int].contains_id(oid));
                    } else {
                        assert(levels1[k as int].price == price);
                        assert(levels1[k as int].orders@[0] == order);
                        assert(levels1[k as int].contains_id(oid));
                    }
                } else {
                    let e2 = self.orders@[k2];
                    assert(e2 == b0.orders@[k2]);
                    assert(b0.index_entry_ok(e2));
                    let li0 = choose|li0: int|
                        0 <= li0 < b0.levels_of(e2.side).len() && b0.levels_of(e2.side)[li0].price
                            == e2.price && b0.levels_of(e2.side)[li0].contains_id(e2.order_id);
                    if e2.side == own {
                        if same_price {
                            if li0 == k {
                                let j0 = choose|j0: int|
                                    0 <= j0 < levels0[li0].orders@.len()
                                        && levels0[li0].orders@[j0].order_id == e2.order_id;
                                assert(levels1[li0].orders@[j0].order_id == e2.order_id);
                                assert(levels1[li0].contains_id(e2.order_id));
                            } else {
                                assert(levels1[li0] == levels0[li0]);
                            }
                        } else {
                            if li0 < k {
                                assert(levels1[li0] == levels0[li0]);
                            } else {
                                assert(levels1[li0 + 1] == levels0[li0]);
                            }
                        }
                    }
                }
            };
            assert(self.queues_indexed(own)) by {
                assert forall|li: int, j: int|
                    0 <= li < levels1.len() && 0 <= j < levels1[li].orders@.len()
                        implies self.index_has_entry(
                    (#[trigger] levels1[li].orders@[j]).order_id,
                    own,
                    levels1[li].price,
                ) by {
                    let id2 = levels1[li].orders@[j].order_id;
                    let p2 = levels1[li].price;
                    if same_price {
                        if li == k && j == levels1[li].orders@.len() - 1 {
                            assert(levels1[li].orders@[j] == order);
                            assert(self.orders@.last() == e);
                        } else {
                            let jj = j;
                            assert(levels0[li].orders@[jj] == levels1[li].orders@[j]);
                            assert(b0.queues_indexed(own));
                            assert(b0.index_has_entry(id2, own, p2));
                            let kk = choose|kk: int|
                                0 <= kk < b0.orders@.len() && b0.orders@[kk] == (IndexEntry {
                                    order_id: id2,
                                    side: own,
                                    price: p2,
                                });
                            assert(self.orders@[kk] == b0.orders@[kk]);
                        }
                    } else {
                        if li == k {
                            assert(levels1[li].orders@[j] == order);
                            assert(self.orders@.last() == e);
                        } else {
                            let li0 = if li < k {
                                li
                            } else {
                                li - 1
                            };
                            assert(levels1[li] == levels0[li0]);
                            assert(b0.queues_indexed(own));
                            assert(b0.index_has_entry(id2, own, p2));
                            let kk = choose|kk: int|
                                0 <= kk < b0.orders@.len() && b0.orders@[kk] == (IndexEntry {
                                    order_id: id2,
                                    side: own,
                                    price: p2,
                                });
                            assert(self.orders@[kk] == b0.orders@[kk]);
                        }
                    }
                };
            };
            assert(self.queues_indexed(opposite(own))) by {
                assert forall|li: int, j: int|
                    0 <= li < self.levels_of(opposite(own)).len() && 0 <= j < self.levels_of(
                        opposite(own),
                    )[li].orders@.len() implies self.index_has_entry(
                    (#[trigger] self.levels_of(opposite(own))[li].orders@[j]).order_id,
                    opposite(own),
                    self.levels_of(opposite(own))[li].price,
                ) by {
                    let id2 = self.levels_of(opposite(own))[li].orders@[j].order_id;
                    let p2 = self.levels_of(opposite(own))[li].price;
                    assert(b0.levels_of(opposite(own))[li].orders@[j].order_id == id2);
                    assert(b0.queues_indexed(opposite(own)));
                    assert(b0.index_has_entry(id2, opposite(own), p2));
                    let kk = choose|kk: int|
                        0 <= kk < b0.orders@.len() && b0.orders@[kk] == (IndexEntry {
                            order_id: id2,
                            side: opposite(own),
                            price: p2,
                        });
                    assert(self.orders@[kk] == b0.orders@[kk]);
                };
            };
        }
    }

    /// Accept an incoming order: match it against the opposite side, then
    /// rest any unfilled LIMIT remainder at its limit price (a MARKET
    /// remainder is discarded). Returns the trades in execution order, the
    /// final records of the fully consumed makers, and the incoming order's
    /// own final record.
    pub fn add_order(&mut self, order: Order) -> (r: (Vec<Trade>, Vec<Order>, Order))
        requires
            old(self).inv(),
            order.type_price_consistent(),
            order.fresh(),
            order.instrument@ == old(self).instrument@,
            !old(self).index_has(order.order_id),
        ensures
            submit_outcome(*old(self), order, r.0@, r.1@, r.2, *final(self)),
    {
        let ghost b0: OrderBook = *self;
        let ghost o0: Order = order;
        let mut order = order;
        let (trades, filled): (Vec<Trade>, Vec<Order>) = self.match_order(&mut order);
        let ghost bmid: OrderBook = *self;

        if order.remaining_quantity > 0 && order.order_type == OrderType::Limit {
            if let Option::Some(price) = order.price {
                proof {
                    assert(resting_order_wf(order, self.instrument@, order.side, price));
                    assert(!self.index_has(order.order_id)) by {
                        if self.index_has(order.order_id) {
                            let k = choose|k: int|
                                0 <= k < self.orders@.len() && self.orders@[k].order_id
                                    == order.order_id;
                            assert(index_seq_has_entry(b0.orders@, self.orders@[k]));
                            let k0 = choose|k0: int|
                                0 <= k0 < b0.orders@.len() && b0.orders@[k0] == self.orders@[k];
                            assert(b0.index_has(order.order_id));
                        }
                    };
                }
                let fin: Order = order.clone();
                let ghost finv: Order = fin;
                self.rest_order(order, price);
                proof {
                    assert(opposite(opposite(o0.side)) == o0.side);
                    assert(self.levels_of(opposite(o0.side)) == bmid.levels_of(
                        opposite(o0.side),
                    ));
                    assert(submit_outcome(b0, o0, trades@, filled@, finv, *self)) by {
                        assert(finv.same_identity(o0));
                        if trades@.len() == 0 {
                            assert(bmid == b0);
                            assert(finv == o0);
                            assert(self.levels_of(opposite(o0.side)) == b0.levels_of(
                                opposite(o0.side),
                            ));
                        }
                        assert forall|i: int, li: int|
                            0 <= i < trades@.len() && 0 <= li < self.levels_of(
                                opposite(o0.side),
                            ).len() implies !better(
                            opposite(o0.side),
                            (#[trigger] self.levels_of(opposite(o0.side))[li]).price,
                            (#[trigger] trades@[i]).price,
                        ) by {
                            assert(self.levels_of(opposite(o0.side)) == bmid.levels_of(
                                opposite(o0.side),
                            ));
                        };
                        assert(finv.remaining_quantity > 0 ==> forall|li: int|
                            0 <= li < self.levels_of(opposite(o0.side)).len() ==> !crosses(
                                o0,
                                (#[trigger] self.levels_of(opposite(o0.side))[li]).price,
                            )) by {
                            assert(self.levels_of(opposite(o0.side)) == bmid.levels_of(
                                opposite(o0.side),
                            ));
                        };
                    };
                }
                return (trades, filled, fin);
            }
        }
        proof {
            assert(opposite(opposite(o0.side)) == o0.side);
            assert(self.levels_of(o0.side) == b0.levels_of(o0.side));
        }
        (trades, filled, order)
    }

    /// Cancel the resting order with this id: scrub it from its price
    /// queue (dropping the level if the queue empties), drop its index
    /// entry, and hand the record back with status CANCELLED. An unknown
    /// id — never resting, already filled, already cancelled — is
    /// OrderNotFound and mutates nothing.
    pub fn cancel_order(&mut self, order_id: u128) -> (r: Result<Order, MatchingEngineError>)
        requires
            old(self).inv(),
        ensures
            final(self).inv(),
            final(self).instrument == old(self).instrument,
            r is Ok <==> old(self).index_has(order_id),
            !old(self).index_has(order_id) ==> *final(self) == *old(self) && r == Err::<
                Order,
                MatchingEngineError,
            >(MatchingEngineError::OrderNotFound(order_id)),
            r matches Ok(removed) ==> cancel_outcome(*old(self), order_id, removed, *final(self)),
    {
        let ghost b0: OrderBook = *self;
        let kopt: Option<usize> = index_find(&self.orders, order_id);
        let k: usize = match kopt {
            Option::Some(k) => k,
            Option::None => {
                return Err(MatchingEngineError::OrderNotFound(order_id));
            },
        };
        let e: IndexEntry = self.orders[k];
        self.orders.remove(k);
        proof {
            assert(b0.index_entry_ok(b0.orders@[k as int]));
        }
        let liopt: Option<usize> = match e.side {
            Side::Buy => find_level_at(&self.bids, e.price),
            Side::Sell => find_level_at(&self.asks, e.price),
        };
        proof {
            let li0 = choose|li0: int|
                0 <= li0 < b0.levels_of(e.side).len() && b0.levels_of(e.side)[li0].price == e.price
                    && b0.levels_of(e.side)[li0].contains_id(e.order_id);
            assert(b0.levels_of(e.side)[li0].price == e.price);
            assert(liopt is Some);
        }
        let li: usize = liopt.unwrap();
        let mut lvl: Level = match e.side {
            Side::Buy => self.bids.remove(li),
            Side::Sell => self.asks.remove(li),
        };
        proof {
            // the level found by price is the level the entry points at
            let li0 = choose|li0: int|
                0 <= li0 < b0.levels_of(e.side).len() && b0.levels_of(e.side)[li0].price == e.price
                    && b0.levels_of(e.side)[li0].contains_id(e.order_id);
            assert(b0.side_wf(e.side));
            if li0 != li {
                if li0 < li {
                    assert(better(e.side, b0.levels_of(e.side)[li0].price, b0.levels_of(e.side)[li as int].price));
                } else {
                    assert(better(e.side, b0.levels_of(e.side)[li as int].price, b0.levels_of(e.side)[li0].price));
                }
            }
            assert(lvl.contains_id(e.order_id));
        }
        let jopt: Option<usize> = find_in_queue(&lvl.orders, order_id);
        proof {
            assert(jopt is Some);
        }
        let j: usize = jopt.unwrap();
        let mut removed: Order = lvl.orders.remove(j);
        let keep_level: bool = lvl.orders.len() > 0;
        let ghost lvlg: Level = lvl;
        if keep_level {
            match e.side {
                Side::Buy => self.bids.insert(li, lvl),
                Side::Sell => self.asks.insert(li, lvl),
            }
        }
        removed.status = OrderStatus::Canceled;
        proof {
            let levels0 = b0.levels_of(e.side);
            let q0 = levels0[li as int].orders@;
            assert(resting_order_wf(q0[j as int], b0.instrument@, e.side, e.price));
            if q0.len() == 1 {
                assert(self.levels_of(e.side) =~= levels0.remove(li as int));
            } else {
                assert(self.levels_of(e.side).len() == levels0.len());
                assert forall|i: int| 0 <= i < levels0.len() && i != li implies self.levels_of(
                    e.side,
                )[i] == levels0[i] by {
                    if i < li {
                        assert(self.levels_of(e.side)[i] == levels0[i]);
                    }
                };
                assert(self.levels_of(e.side)[li as int] == lvlg);
                assert(lvlg.price == levels0[li as int].price);
                assert(lvlg.orders@ == q0.remove(j as int));
            }
            lemma_cancel_inv(b0, *self, k as int, li as int, j as int);
            assert(cancel_outcome(b0, order_id, removed, *self)) by {
                assert(removed == (Order { status: OrderStatus::Canceled, ..q0[j as int] }));
                assert(removed.price == Some(e.price));
                assert(removed.side == e.side);
                assert(b0.orders@[k as int] == (IndexEntry {
                    order_id: order_id,
                    side: removed.side,
                    price: removed.price.unwrap(),
                }));
                assert(self.orders@ == b0.orders@.remove(k as int));
                assert(removed_at(
                    levels0,
                    order_id,
                    removed,
                    self.levels_of(e.side),
                    li as int,
                    j as int,
                ));
                assert(removed_from_side(levels0, order_id, removed, self.levels_of(e.side)));
            };
        }
        Ok(removed)
    }

    /// `d` is the aggregated snapshot of `b`: one (price, summed remaining
    /// quantity) pair per level, in the stored best-first order.
    pub open spec fn display_of(b: OrderBook, d: OrderBookDisplay) -> bool {
        &&& d.bids@.len() == b.bids@.len()
        &&& d.asks@.len() == b.asks@.len()
        &&& forall|i: int|
            0 <= i < d.bids@.len() ==> (#[trigger] d.bids@[i]).price == b.bids@[i].price
                && d.bids@[i].volume == queue_volume(b.bids@[i].orders@) && d.bids@[i].volume > 0
        &&& forall|i: int|
            0 <= i < d.asks@.len() ==> (#[trigger] d.asks@[i]).price == b.asks@[i].price
                && d.asks@[i].volume == queue_volume(b.asks@[i].orders@) && d.asks@[i].volume > 0
    }

    /// Read-only aggregated snapshot: one (price, summed remaining
    /// quantity) pair per level, bids best-first (descending price), asks
    /// best-first (ascending price). Under the invariant no level sums to
    /// zero, so every level appears.
    pub fn display(&self) -> (r: OrderBookDisplay)
        requires
            self.inv(),
        ensures
            OrderBook::display_of(*self, r),
            r.bids@.len() == self.bids@.len(),
            r.asks@.len() == self.asks@.len(),
            forall|i: int|
                0 <= i < r.bids@.len() ==> (#[trigger] r.bids@[i]).price == self.bids@[i].price
                    && r.bids@[i].volume == queue_volume(self.bids@[i].orders@)
                    && r.bids@[i].volume > 0,
            forall|i: int|
                0 <= i < r.asks@.len() ==> (#[trigger] r.asks@[i]).price == self.asks@[i].price
                    && r.asks@[i].volume == queue_volume(self.asks@[i].orders@)
                    && r.asks@[i].volume > 0,
    {
        proof {
            assert(self.side_wf(Side::Buy));
            assert(self.side_wf(Side::Sell));
            assert forall|i: int, j: int|
                0 <= i < self.bids@.len() && 0 <= j < self.bids@[i].orders@.len() implies (
            #[trigger] self.bids@[i].orders@[j]).remaining_quantity > 0 by {
                assert(self.levels_of(Side::Buy)[i].wf(self.instrument@, Side::Buy));
            };
            assert forall|i: int| 0 <= i < self.bids@.len() implies (
            #[trigger] self.bids@[i]).orders@.len() > 0 by {
                assert(self.levels_of(Side::Buy)[i].wf(self.instrument@, Side::Buy));
            };
            assert forall|i: int, j: int|
                0 <= i < self.asks@.len() && 0 <= j < self.asks@[i].orders@.len() implies (
            #[trigger] self.asks@[i].orders@[j]).remaining_quantity > 0 by {
                assert(self.levels_of(Side::Sell)[i].wf(self.instrument@, Side::Sell));
            };
            assert forall|i: int| 0 <= i < self.asks@.len() implies (
            #[trigger] self.asks@[i]).orders@.len() > 0 by {
                assert(self.levels_of(Side::Sell)[i].wf(self.instrument@, Side::Sell));
            };
        }
        let bids: Vec<PriceLevel> = side_display(&self.bids);
        let asks: Vec<PriceLevel> = side_display(&self.asks);
        OrderBookDisplay { bids, asks }
    }
}

/// Aggregate one side, level by level, best-first.
fn side_display(levels: &Vec<Level>) -> (r: Vec<PriceLevel>)
    requires
        forall|i: int, j: int|
            0 <= i < levels@.len() && 0 <= j < levels@[i].orders@.len() ==> (
            #[trigger] levels@[i].orders@[j]).remaining_quantity > 0,
        forall|i: int| 0 <= i < levels@.len() ==> (#[trigger] levels@[i]).orders@.len() > 0,
    ensures
        r@.len() == levels@.len(),
        forall|i: int|
            0 <= i < r@.len() ==> (#[trigger] r@[i]).price == levels@[i].price && r@[i].volume
                == queue_volume(levels@[i].orders@) && r@[i].volume > 0,
{
    let mut out: Vec<PriceLevel> = Vec::new();
    let n: usize = levels.len();
    let mut i: usize = 0;
    while i < n
        invariant
            n == levels@.len(),
            0 <= i <= n,
            forall|i2: int, j: int|
                0 <= i2 < levels@.len() && 0 <= j < levels@[i2].orders@.len() ==> (
                #[trigger] levels@[i2].orders@[j]).remaining_quantity > 0,
            forall|i2: int| 0 <= i2 < levels@.len() ==> (#[trigger] levels@[i2]).orders@.len() > 0,
            out@.len() == i,
            forall|i2: int|
                0 <= i2 < i ==> (#[trigger] out@[i2]).price == levels@[i2].price && out@[i2].volume
                    == queue_volume(levels@[i2].orders@) && out@[i2].volume > 0,
        decreases n - i,
    {
        let m: usize = levels[i].orders.len();
        let mut vol: u128 = 0;
        let mut j: usize = 0;
        while j < m
            invariant
                n == levels@.len(),
                0 <= i < n,
                m == levels@[i as int].orders@.len(),
                0 <= j <= m,
                forall|j2: int|
                    0 <= j2 < m ==> (#[trigger] levels@[i as int].orders@[j2]).remaining_quantity
                        > 0,
                vol == queue_volume(levels@[i as int].orders@.take(j as int)),
                vol <= (j as int) * (u64::MAX as int),
            decreases m - j,
        {
            let ghost q: Seq<Order> = levels@[i as int].orders@;
            proof {
                lemma_queue_volume_push(q.take(j as int), q[j as int]);
                assert(q.take(j as int + 1) =~= q.take(j as int).push(q[j as int]));
                assert((vol as int) + (q[j as int].remaining_quantity as int) <= ((j as int) + 1)
                    * (u64::MAX as int)) by (nonlinear_arith)
                    requires
                        vol <= (j as int) * (u64::MAX as int),
                        q[j as int].remaining_quantity <= u64::MAX,
                ;
                assert(((j as int) + 1) * (u64::MAX as int) < u128::MAX as int)
                    by (nonlinear_arith)
                    requires
                        (j as int) + 1 <= (u64::MAX as int) + 1,
                ;
            }
            vol = vol + (levels[i].orders[j].remaining_quantity as u128);
            j = j + 1;
        }
        proof {
            assert(levels@[i as int].orders@.take(m as int) =~= levels@[i as int].orders@);
            lemma_queue_volume_bounds(levels@[i as int].orders@);
        }
        let price: u64 = levels[i].price;
        if vol > 0 {
            out.push(PriceLevel { price: price, volume: vol });
        }
        i = i + 1;
    }
    out
}

} // verus!
