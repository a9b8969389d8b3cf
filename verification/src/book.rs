//! The order book: four priority queues (bid/ask, limit/market), order
//! admission, and the three-phase matching engine.
//!
//! Each queue is a vector sorted under its priority relation with the best
//! order last, so taking the best order is a pop and re-queueing a partially
//! matched order (whose priority key is unchanged) is a push.

use vstd::prelude::*;
use vstd::multiset::Multiset;
use crate::amount::Amount;
use crate::orders::flat::{
    data_admissible, LimitOrderData, MarketOrderData, Order, OrderData, OrderSide, MAX_ORDER_PRICE,
    MAX_ORDER_SIZE,
};
use crate::orders::limit::{
    ask_le, ask_le_exec, bid_le, bid_le_exec, lemma_limit_le_total, lemma_limit_le_trans,
    AskLimitOrder, BidLimitOrder,
};
use crate::orders::market::{
    lemma_market_le_total, lemma_market_le_trans, market_le, market_le_exec, AskMarketOrder,
    BidMarketOrder,
};
use crate::sums::{
    lemma_sum_by_element_bound, lemma_sum_by_insert, lemma_sum_by_nonneg, lemma_sum_by_push,
    lemma_sum_by_update, sum_by,
};

verus! {

/// Largest fallback price the market-versus-market phase accepts; the
/// derived market price never exceeds the largest notional value, so this
/// is no restriction on prices the book itself can produce.
pub const MAX_FALLBACK_PRICE: i64 = 1_000_000_000_000;

/// The money a limit order stands for: its price times its size.
pub open spec fn limit_notional(o: LimitOrderData) -> int {
    o.price.as_int * o.size
}

/// Total notional value of a limit queue.
pub open spec fn notional_sum(s: Seq<LimitOrderData>) -> int {
    sum_by(s, |o: LimitOrderData| limit_notional(o))
}

/// Total size of a limit queue.
pub open spec fn limit_size_sum(s: Seq<LimitOrderData>) -> int {
    sum_by(s, |o: LimitOrderData| o.size as int)
}

/// Total size of a market queue.
pub open spec fn market_size_sum(s: Seq<MarketOrderData>) -> int {
    sum_by(s, |o: MarketOrderData| o.size as int)
}

/// A limit queue sorted by bid priority, best bid last.
pub open spec fn sorted_bids(s: Seq<LimitOrderData>) -> bool {
    forall|i: int, j: int| 0 <= i <= j < s.len() ==> #[trigger] bid_le(s[i], s[j])
}

/// A limit queue sorted by ask priority, best ask last.
pub open spec fn sorted_asks(s: Seq<LimitOrderData>) -> bool {
    forall|i: int, j: int| 0 <= i <= j < s.len() ==> #[trigger] ask_le(s[i], s[j])
}

/// A market queue sorted by market priority, best order last.
pub open spec fn sorted_market(s: Seq<MarketOrderData>) -> bool {
    forall|i: int, j: int| 0 <= i <= j < s.len() ==> #[trigger] market_le(s[i], s[j])
}

/// A limit order the book may hold: positive bounded size and price.
pub open spec fn limit_entry_wf(o: LimitOrderData) -> bool {
    &&& 0 < o.size <= MAX_ORDER_SIZE
    &&& 0 < o.price.as_int <= MAX_ORDER_PRICE
}

/// Every entry of a limit queue is well-formed.
pub open spec fn limit_entries_wf(s: Seq<LimitOrderData>) -> bool {
    forall|i: int| 0 <= i < s.len() ==> #[trigger] limit_entry_wf(s[i])
}

/// A market order the book may hold: positive bounded size.
pub open spec fn market_entry_wf(o: MarketOrderData) -> bool {
    0 < o.size <= MAX_ORDER_SIZE
}

/// Every entry of a market queue is well-formed.
pub open spec fn market_entries_wf(s: Seq<MarketOrderData>) -> bool {
    forall|i: int| 0 <= i < s.len() ==> #[trigger] market_entry_wf(s[i])
}

/// Some order of the limit queue carries the given id.
pub open spec fn has_limit_id(s: Seq<LimitOrderData>, id: u64) -> bool {
    exists|j: int| 0 <= j < s.len() && s[j].id == id
}

/// Some order of the market queue carries the given id.
pub open spec fn has_market_id(s: Seq<MarketOrderData>, id: u64) -> bool {
    exists|j: int| 0 <= j < s.len() && s[j].id == id
}

/// Every order resident in the book was stamped before the next id: the
/// id counter never hands a resident id out again.
pub open spec fn ids_below_next(b: OrderBook) -> bool {
    &&& forall|oid: u64| #[trigger] has_limit_id(b.bids(), oid) ==> oid < b.next_id()
    &&& forall|oid: u64| #[trigger] has_limit_id(b.asks(), oid) ==> oid < b.next_id()
    &&& forall|oid: u64| #[trigger] has_market_id(b.mbids(), oid) ==> oid < b.next_id()
    &&& forall|oid: u64| #[trigger] has_market_id(b.masks(), oid) ==> oid < b.next_id()
}

/// The best remaining limit bid is ready to pay at least what the best
/// remaining limit ask demands.
pub open spec fn limit_cross(bids: Seq<LimitOrderData>, asks: Seq<LimitOrderData>) -> bool {
    &&& bids.len() > 0
    &&& asks.len() > 0
    &&& bids.last().price.as_int >= asks.last().price.as_int
}

/// Once the best bid pays less than the best ask asks, every bid does:
/// sortedness spreads the top-of-book comparison over the whole book.
pub proof fn lemma_no_price_cross(bids: Seq<LimitOrderData>, asks: Seq<LimitOrderData>)
    requires
        sorted_bids(bids),
        sorted_asks(asks),
        !limit_cross(bids, asks),
    ensures
        forall|i: int, j: int|
            0 <= i < bids.len() && 0 <= j < asks.len() ==> (#[trigger] bids[i]).price.as_int
                < (#[trigger] asks[j]).price.as_int,
{
    assert forall|i: int, j: int|
        0 <= i < bids.len() && 0 <= j < asks.len() implies (#[trigger] bids[i]).price.as_int
        < (#[trigger] asks[j]).price.as_int by {
        assert(bid_le(bids[i], bids.last()));
        assert(ask_le(asks[j], asks.last()));
    }
}

/// The transaction the best limit bid and best limit ask of a crossed
/// book trade: the smaller size, each at its own price.
pub open spec fn spec_limit_match(bids: Seq<LimitOrderData>, asks: Seq<LimitOrderData>) -> Transaction {
    let b = bids.last();
    let a = asks.last();
    let ts = if b.size <= a.size {
        b.size as int
    } else {
        a.size as int
    };
    Transaction {
        bid_id: b.id,
        ask_id: a.id,
        size: ts as i64,
        bid_loss: Amount { as_int: (b.price.as_int * ts) as i64 },
        ask_gain: Amount { as_int: (a.price.as_int * ts) as i64 },
        diff: Amount { as_int: (b.price.as_int * ts - a.price.as_int * ts) as i64 },
    }
}

/// The limit-bid queue after the best pair of a crossed book trades.
pub open spec fn spec_limit_bids_after(
    bids: Seq<LimitOrderData>,
    asks: Seq<LimitOrderData>,
) -> Seq<LimitOrderData> {
    let b = bids.last();
    let a = asks.last();
    let ts = if b.size <= a.size {
        b.size as int
    } else {
        a.size as int
    };
    if b.size > ts {
        bids.update(
            bids.len() - 1,
            LimitOrderData { timestamp: b.timestamp, id: b.id, price: b.price, size: (b.size - ts) as i64 },
        )
    } else {
        bids.drop_last()
    }
}

/// The limit-ask queue after the best pair of a crossed book trades.
pub open spec fn spec_limit_asks_after(
    bids: Seq<LimitOrderData>,
    asks: Seq<LimitOrderData>,
) -> Seq<LimitOrderData> {
    let b = bids.last();
    let a = asks.last();
    let ts = if b.size <= a.size {
        b.size as int
    } else {
        a.size as int
    };
    if a.size > ts {
        asks.update(
            asks.len() - 1,
            LimitOrderData { timestamp: a.timestamp, id: a.id, price: a.price, size: (a.size - ts) as i64 },
        )
    } else {
        asks.drop_last()
    }
}

/// One limit trade keeps the queues well-formed and takes the traded size
/// off each side.
pub proof fn lemma_limit_after_wf(bids: Seq<LimitOrderData>, asks: Seq<LimitOrderData>)
    requires
        limit_entries_wf(bids),
        limit_entries_wf(asks),
        limit_cross(bids, asks),
    ensures
        limit_entries_wf(spec_limit_bids_after(bids, asks)),
        limit_entries_wf(spec_limit_asks_after(bids, asks)),
        ({
            let ts = if bids.last().size <= asks.last().size {
                bids.last().size as int
            } else {
                asks.last().size as int
            };
            &&& limit_size_sum(spec_limit_bids_after(bids, asks)) == limit_size_sum(bids) - ts
            &&& limit_size_sum(spec_limit_asks_after(bids, asks)) == limit_size_sum(asks) - ts
        }),
{
    let b = bids.last();
    let a = asks.last();
    assert(limit_entry_wf(bids[bids.len() - 1]));
    assert(limit_entry_wf(asks[asks.len() - 1]));
    let ts = if b.size <= a.size {
        b.size as int
    } else {
        a.size as int
    };
    let ba = spec_limit_bids_after(bids, asks);
    let aa = spec_limit_asks_after(bids, asks);
    if b.size > ts {
        let reduced = LimitOrderData {
            timestamp: b.timestamp,
            id: b.id,
            price: b.price,
            size: (b.size - ts) as i64,
        };
        lemma_sum_by_update(bids, bids.len() - 1, reduced, |o: LimitOrderData| o.size as int);
        assert forall|i: int| 0 <= i < ba.len() implies #[trigger] limit_entry_wf(ba[i]) by {
            assert(limit_entry_wf(bids[i]));
        }
    } else {
        assert forall|i: int| 0 <= i < ba.len() implies #[trigger] limit_entry_wf(ba[i]) by {
            assert(limit_entry_wf(bids[i]));
        }
    }
    if a.size > ts {
        let reduced = LimitOrderData {
            timestamp: a.timestamp,
            id: a.id,
            price: a.price,
            size: (a.size - ts) as i64,
        };
        lemma_sum_by_update(asks, asks.len() - 1, reduced, |o: LimitOrderData| o.size as int);
        assert forall|i: int| 0 <= i < aa.len() implies #[trigger] limit_entry_wf(aa[i]) by {
            assert(limit_entry_wf(asks[i]));
        }
    } else {
        assert forall|i: int| 0 <= i < aa.len() implies #[trigger] limit_entry_wf(aa[i]) by {
            assert(limit_entry_wf(asks[i]));
        }
    }
}

/// The full transaction list the limit phase produces from the two
/// queues: the best pair trades while the book is crossed.
pub open spec fn spec_match_limit_list(
    bids: Seq<LimitOrderData>,
    asks: Seq<LimitOrderData>,
) -> Seq<Transaction>
    decreases limit_size_sum(bids) + limit_size_sum(asks),
        when limit_entries_wf(bids) && limit_entries_wf(asks)
{
    if !limit_cross(bids, asks) {
        Seq::empty()
    } else {
        proof {
            lemma_limit_after_wf(bids, asks);
            lemma_limit_size_sum_nonneg(spec_limit_bids_after(bids, asks));
            lemma_limit_size_sum_nonneg(spec_limit_asks_after(bids, asks));
            assert(limit_entry_wf(bids[bids.len() - 1]));
            assert(limit_entry_wf(asks[asks.len() - 1]));
            assert(limit_size_sum(spec_limit_bids_after(bids, asks)) + limit_size_sum(
                spec_limit_asks_after(bids, asks),
            ) < limit_size_sum(bids) + limit_size_sum(asks));
        }
        seq![spec_limit_match(bids, asks)] + spec_match_limit_list(
            spec_limit_bids_after(bids, asks),
            spec_limit_asks_after(bids, asks),
        )
    }
}

/// What one market-against-limit pass produces and leaves behind.
pub struct MarketLimitOutcome {
    /// The transactions, in emission order.
    pub transactions: Seq<Transaction>,
    /// The remaining market queue.
    pub market_orders: Seq<MarketOrderData>,
    /// The remaining limit queue.
    pub limit_orders: Seq<LimitOrderData>,
}

/// What the fallback pass produces and leaves behind.
pub struct FallbackOutcome {
    /// The transactions, in emission order.
    pub transactions: Seq<Transaction>,
    /// The remaining market bids.
    pub market_bids: Seq<MarketOrderData>,
    /// The remaining market asks.
    pub market_asks: Seq<MarketOrderData>,
}

/// One market-against-limit trade keeps both queues well-formed and takes
/// the traded size off each side.
pub proof fn lemma_market_limit_after_wf(m: MarketOrderData, l: LimitOrderData, ms: Seq<MarketOrderData>, ls: Seq<LimitOrderData>)
    requires
        market_entries_wf(ms),
        limit_entries_wf(ls),
        ms.len() > 0,
        ls.len() > 0,
        m == ms.last(),
        l == ls.last(),
    ensures
        ({
            let ts = if m.size <= l.size {
                m.size as int
            } else {
                l.size as int
            };
            let ms2 = if m.size > ts {
                ms.update(ms.len() - 1, MarketOrderData { timestamp: m.timestamp, id: m.id, size: (m.size - ts) as i64 })
            } else {
                ms.drop_last()
            };
            let ls2 = if l.size > ts {
                ls.update(ls.len() - 1, LimitOrderData { timestamp: l.timestamp, id: l.id, price: l.price, size: (l.size - ts) as i64 })
            } else {
                ls.drop_last()
            };
            &&& market_entries_wf(ms2)
            &&& limit_entries_wf(ls2)
            &&& market_size_sum(ms2) == market_size_sum(ms) - ts
            &&& limit_size_sum(ls2) == limit_size_sum(ls) - ts
        }),
{
    assert(market_entry_wf(ms[ms.len() - 1]));
    assert(limit_entry_wf(ls[ls.len() - 1]));
    let ts = if m.size <= l.size {
        m.size as int
    } else {
        l.size as int
    };
    if m.size > ts {
        let reduced = MarketOrderData { timestamp: m.timestamp, id: m.id, size: (m.size - ts) as i64 };
        lemma_sum_by_update(ms, ms.len() - 1, reduced, |o: MarketOrderData| o.size as int);
        assert forall|i: int|
            0 <= i < ms.update(ms.len() - 1, reduced).len() implies #[trigger] market_entry_wf(
            ms.update(ms.len() - 1, reduced)[i],
        ) by {
            assert(market_entry_wf(ms[i]));
        }
    } else {
        assert forall|i: int| 0 <= i < ms.drop_last().len() implies #[trigger] market_entry_wf(
            ms.drop_last()[i],
        ) by {
            assert(market_entry_wf(ms[i]));
        }
    }
    if l.size > ts {
        let reduced = LimitOrderData { timestamp: l.timestamp, id: l.id, price: l.price, size: (l.size - ts) as i64 };
        lemma_sum_by_update(ls, ls.len() - 1, reduced, |o: LimitOrderData| o.size as int);
        assert forall|i: int|
            0 <= i < ls.update(ls.len() - 1, reduced).len() implies #[trigger] limit_entry_wf(
            ls.update(ls.len() - 1, reduced)[i],
        ) by {
            assert(limit_entry_wf(ls[i]));
        }
    } else {
        assert forall|i: int| 0 <= i < ls.drop_last().len() implies #[trigger] limit_entry_wf(
            ls.drop_last()[i],
        ) by {
            assert(limit_entry_wf(ls[i]));
        }
    }
}

/// The transactions a market-against-limit pass produces from the two
/// queues, and what it leaves of them: the two best orders trade the
/// smaller size at the limit order's price while both queues are
/// populated.  `limit_is_bid` says which side the limit queue is on.
pub open spec fn spec_match_market_limit(
    market_orders: Seq<MarketOrderData>,
    limit_orders: Seq<LimitOrderData>,
    limit_is_bid: bool,
) -> MarketLimitOutcome
    decreases market_size_sum(market_orders) + limit_size_sum(limit_orders),
        when market_entries_wf(market_orders) && limit_entries_wf(limit_orders)
{
    if market_orders.len() == 0 || limit_orders.len() == 0 {
        MarketLimitOutcome { transactions: Seq::empty(), market_orders, limit_orders }
    } else {
        let m = market_orders.last();
        let l = limit_orders.last();
        let ts = if m.size <= l.size {
            m.size as int
        } else {
            l.size as int
        };
        let money = Amount { as_int: (l.price.as_int * ts) as i64 };
        let t = Transaction {
            bid_id: if limit_is_bid {
                l.id
            } else {
                m.id
            },
            ask_id: if limit_is_bid {
                m.id
            } else {
                l.id
            },
            size: ts as i64,
            bid_loss: money,
            ask_gain: money,
            diff: Amount { as_int: 0 },
        };
        let market2 = if m.size > ts {
            market_orders.update(
                market_orders.len() - 1,
                MarketOrderData { timestamp: m.timestamp, id: m.id, size: (m.size - ts) as i64 },
            )
        } else {
            market_orders.drop_last()
        };
        let limit2 = if l.size > ts {
            limit_orders.update(
                limit_orders.len() - 1,
                LimitOrderData { timestamp: l.timestamp, id: l.id, price: l.price, size: (l.size - ts) as i64 },
            )
        } else {
            limit_orders.drop_last()
        };
        proof {
            lemma_market_limit_after_wf(m, l, market_orders, limit_orders);
            lemma_market_size_sum_nonneg(market2);
            lemma_limit_size_sum_nonneg(limit2);
            assert(market_entry_wf(market_orders[market_orders.len() - 1]));
            assert(limit_entry_wf(limit_orders[limit_orders.len() - 1]));
            assert(market_size_sum(market2) + limit_size_sum(limit2) < market_size_sum(
                market_orders,
            ) + limit_size_sum(limit_orders));
        }
        let rest = spec_match_market_limit(market2, limit2, limit_is_bid);
        MarketLimitOutcome {
            transactions: seq![t] + rest.transactions,
            market_orders: rest.market_orders,
            limit_orders: rest.limit_orders,
        }
    }
}

/// One fallback trade keeps both market queues well-formed and takes the
/// traded size off each side.
pub proof fn lemma_fallback_after_wf(b: MarketOrderData, a: MarketOrderData, bs: Seq<MarketOrderData>, cs: Seq<MarketOrderData>)
    requires
        market_entries_wf(bs),
        market_entries_wf(cs),
        bs.len() > 0,
        cs.len() > 0,
        b == bs.last(),
        a == cs.last(),
    ensures
        ({
            let ts = if b.size <= a.size {
                b.size as int
            } else {
                a.size as int
            };
            let bs2 = if b.size > ts {
                bs.update(bs.len() - 1, MarketOrderData { timestamp: b.timestamp, id: b.id, size: (b.size - ts) as i64 })
            } else {
                bs.drop_last()
            };
            let cs2 = if a.size > ts {
                cs.update(cs.len() - 1, MarketOrderData { timestamp: a.timestamp, id: a.id, size: (a.size - ts) as i64 })
            } else {
                cs.drop_last()
            };
            &&& market_entries_wf(bs2)
            &&& market_entries_wf(cs2)
            &&& market_size_sum(bs2) == market_size_sum(bs) - ts
            &&& market_size_sum(cs2) == market_size_sum(cs) - ts
        }),
{
    assert(market_entry_wf(bs[bs.len() - 1]));
    assert(market_entry_wf(cs[cs.len() - 1]));
    let ts = if b.size <= a.size {
        b.size as int
    } else {
        a.size as int
    };
    if b.size > ts {
        let reduced = MarketOrderData { timestamp: b.timestamp, id: b.id, size: (b.size - ts) as i64 };
        lemma_sum_by_update(bs, bs.len() - 1, reduced, |o: MarketOrderData| o.size as int);
        assert forall|i: int|
            0 <= i < bs.update(bs.len() - 1, reduced).len() implies #[trigger] market_entry_wf(
            bs.update(bs.len() - 1, reduced)[i],
        ) by {
            assert(market_entry_wf(bs[i]));
        }
    } else {
        assert forall|i: int| 0 <= i < bs.drop_last().len() implies #[trigger] market_entry_wf(
            bs.drop_last()[i],
        ) by {
            assert(market_entry_wf(bs[i]));
        }
    }
    if a.size > ts {
        let reduced = MarketOrderData { timestamp: a.timestamp, id: a.id, size: (a.size - ts) as i64 };
        lemma_sum_by_update(cs, cs.len() - 1, reduced, |o: MarketOrderData| o.size as int);
        assert forall|i: int|
            0 <= i < cs.update(cs.len() - 1, reduced).len() implies #[trigger] market_entry_wf(
            cs.update(cs.len() - 1, reduced)[i],
        ) by {
            assert(market_entry_wf(cs[i]));
        }
    } else {
        assert forall|i: int| 0 <= i < cs.drop_last().len() implies #[trigger] market_entry_wf(
            cs.drop_last()[i],
        ) by {
            assert(market_entry_wf(cs[i]));
        }
    }
}

/// The transactions the fallback pass produces from the two market
/// queues at the given price, and what it leaves of them.
pub open spec fn spec_match_fallback(
    market_bids: Seq<MarketOrderData>,
    market_asks: Seq<MarketOrderData>,
    price: Amount,
) -> FallbackOutcome
    decreases market_size_sum(market_bids) + market_size_sum(market_asks),
        when market_entries_wf(market_bids) && market_entries_wf(market_asks)
{
    if market_bids.len() == 0 || market_asks.len() == 0 {
        FallbackOutcome { transactions: Seq::empty(), market_bids, market_asks }
    } else {
        let b = market_bids.last();
        let a = market_asks.last();
        let ts = if b.size <= a.size {
            b.size as int
        } else {
            a.size as int
        };
        let money = Amount { as_int: (price.as_int * ts) as i64 };
        let t = Transaction {
            bid_id: b.id,
            ask_id: a.id,
            size: ts as i64,
            bid_loss: money,
            ask_gain: money,
            diff: Amount { as_int: 0 },
        };
        let bids2 = if b.size > ts {
            market_bids.update(
                market_bids.len() - 1,
                MarketOrderData { timestamp: b.timestamp, id: b.id, size: (b.size - ts) as i64 },
            )
        } else {
            market_bids.drop_last()
        };
        let asks2 = if a.size > ts {
            market_asks.update(
                market_asks.len() - 1,
                MarketOrderData { timestamp: a.timestamp, id: a.id, size: (a.size - ts) as i64 },
            )
        } else {
            market_asks.drop_last()
        };
        proof {
            lemma_fallback_after_wf(b, a, market_bids, market_asks);
            lemma_market_size_sum_nonneg(bids2);
            lemma_market_size_sum_nonneg(asks2);
            assert(market_entry_wf(market_bids[market_bids.len() - 1]));
            assert(market_entry_wf(market_asks[market_asks.len() - 1]));
            assert(market_size_sum(bids2) + market_size_sum(asks2) < market_size_sum(market_bids)
                + market_size_sum(market_asks));
        }
        let rest = spec_match_fallback(bids2, asks2, price);
        FallbackOutcome {
            transactions: seq![t] + rest.transactions,
            market_bids: rest.market_bids,
            market_asks: rest.market_asks,
        }
    }
}

/// The result of one match: the two order ids, the traded size, what the
/// bidder pays, what the asker receives, and the difference that accrues
/// to the house.
#[derive(Copy, Clone, Debug, PartialEq, Eq)]
pub struct Transaction {
    pub bid_id: u64,
    pub ask_id: u64,
    pub size: i64,
    pub bid_loss: Amount,
    pub ask_gain: Amount,
    pub diff: Amount,
}

impl Transaction {
    /// Internal consistency of an emitted transaction: a positive traded
    /// size, non-negative money on both sides, and a non-negative house
    /// difference that is exactly the two sides' gap.
    pub open spec fn wf(self) -> bool {
        &&& 0 < self.size <= MAX_ORDER_SIZE
        &&& 0 <= self.ask_gain.as_int <= self.bid_loss.as_int
        &&& self.diff.as_int == self.bid_loss.as_int - self.ask_gain.as_int
    }
}

/// Every transaction of the sequence is well-formed.
pub open spec fn transactions_wf(s: Seq<Transaction>) -> bool {
    forall|i: int| 0 <= i < s.len() ==> (#[trigger] s[i]).wf()
}

/// Total money the bidders pay over a list of transactions.
pub open spec fn tx_loss_sum(s: Seq<Transaction>) -> int {
    sum_by(s, |t: Transaction| t.bid_loss.as_int as int)
}

/// Total money the askers receive over a list of transactions.
pub open spec fn tx_gain_sum(s: Seq<Transaction>) -> int {
    sum_by(s, |t: Transaction| t.ask_gain.as_int as int)
}

/// Total commodity moved over a list of transactions.
pub open spec fn tx_size_sum(s: Seq<Transaction>) -> int {
    sum_by(s, |t: Transaction| t.size as int)
}

/// The notional value an order adds to the limit-bid queue.
pub open spec fn order_bid_notional(o: Order) -> int {
    if o.price is Some && o.side is Bid {
        o.price->Some_0.as_int * o.size
    } else {
        0
    }
}

/// The notional value an order adds to the limit-ask queue.
pub open spec fn order_ask_notional(o: Order) -> int {
    if o.price is Some && o.side is Ask {
        o.price->Some_0.as_int * o.size
    } else {
        0
    }
}

/// The size an order adds to the limit-bid queue.
pub open spec fn order_bid_size(o: Order) -> int {
    if o.price is Some && o.side is Bid {
        o.size as int
    } else {
        0
    }
}

/// The size an order adds to the limit-ask queue.
pub open spec fn order_ask_size(o: Order) -> int {
    if o.price is Some && o.side is Ask {
        o.size as int
    } else {
        0
    }
}

/// The size an order adds to the market-bid queue.
pub open spec fn order_mbid_size(o: Order) -> int {
    if o.price is None && o.side is Bid {
        o.size as int
    } else {
        0
    }
}

/// The size an order adds to the market-ask queue.
pub open spec fn order_mask_size(o: Order) -> int {
    if o.price is None && o.side is Ask {
        o.size as int
    } else {
        0
    }
}

/// The limit-bid records a batch of orders carries.
pub open spec fn bid_limit_records(s: Seq<Order>) -> Multiset<LimitOrderData>
    decreases s.len(),
{
    if s.len() == 0 {
        Multiset::empty()
    } else {
        let rest = bid_limit_records(s.drop_last());
        let o = s.last();
        if o.price is Some && o.side is Bid {
            rest.insert(o.spec_limit_data()->Some_0)
        } else {
            rest
        }
    }
}

/// The limit-ask records a batch of orders carries.
pub open spec fn ask_limit_records(s: Seq<Order>) -> Multiset<LimitOrderData>
    decreases s.len(),
{
    if s.len() == 0 {
        Multiset::empty()
    } else {
        let rest = ask_limit_records(s.drop_last());
        let o = s.last();
        if o.price is Some && o.side is Ask {
            rest.insert(o.spec_limit_data()->Some_0)
        } else {
            rest
        }
    }
}

/// The market-bid records a batch of orders carries.
pub open spec fn bid_market_records(s: Seq<Order>) -> Multiset<MarketOrderData>
    decreases s.len(),
{
    if s.len() == 0 {
        Multiset::empty()
    } else {
        let rest = bid_market_records(s.drop_last());
        let o = s.last();
        if o.price is None && o.side is Bid {
            rest.insert(o.spec_market_data()->Some_0)
        } else {
            rest
        }
    }
}

/// The market-ask records a batch of orders carries.
pub open spec fn ask_market_records(s: Seq<Order>) -> Multiset<MarketOrderData>
    decreases s.len(),
{
    if s.len() == 0 {
        Multiset::empty()
    } else {
        let rest = ask_market_records(s.drop_last());
        let o = s.last();
        if o.price is None && o.side is Ask {
            rest.insert(o.spec_market_data()->Some_0)
        } else {
            rest
        }
    }
}

/// A crossed book always trades: the limit phase's transaction list
/// begins with the best pair's trade.
pub proof fn lemma_crossed_book_trades(bids: Seq<LimitOrderData>, asks: Seq<LimitOrderData>)
    requires
        limit_entries_wf(bids),
        limit_entries_wf(asks),
        limit_cross(bids, asks),
    ensures
        spec_match_limit_list(bids, asks).len() >= 1,
        spec_match_limit_list(bids, asks)[0] == spec_limit_match(bids, asks),
{
}

/// The order book.
pub struct OrderBook {
    limit_asks: Vec<LimitOrderData>,
    limit_bids: Vec<LimitOrderData>,
    market_asks: Vec<MarketOrderData>,
    market_bids: Vec<MarketOrderData>,
    id: u64,
    time: i64,
}

impl OrderBook {
    /// The limit-bid queue, worst first, best bid last.
    pub closed spec fn bids(&self) -> Seq<LimitOrderData> {
        self.limit_bids@
    }

    /// The limit-ask queue, worst first, best ask last.
    pub closed spec fn asks(&self) -> Seq<LimitOrderData> {
        self.limit_asks@
    }

    /// The market-bid queue, oldest (best) last.
    pub closed spec fn mbids(&self) -> Seq<MarketOrderData> {
        self.market_bids@
    }

    /// The market-ask queue, oldest (best) last.
    pub closed spec fn masks(&self) -> Seq<MarketOrderData> {
        self.market_asks@
    }

    /// The id the next admitted order will receive.
    pub closed spec fn next_id(&self) -> u64 {
        self.id
    }

    /// The timestamp the next admitted order will receive.
    pub closed spec fn now(&self) -> i64 {
        self.time
    }

    /// The book's invariant: each queue sorted under its priority relation
    /// and holding only well-formed orders.
    pub open spec fn wf(&self) -> bool {
        &&& sorted_bids(self.bids())
        &&& sorted_asks(self.asks())
        &&& sorted_market(self.mbids())
        &&& sorted_market(self.masks())
        &&& limit_entries_wf(self.bids())
        &&& limit_entries_wf(self.asks())
        &&& market_entries_wf(self.mbids())
        &&& market_entries_wf(self.masks())
    }

    /// An empty book with both counters at zero.
    pub fn empty() -> (r: Self)
        ensures
            r.wf(),
            r.bids() == Seq::<LimitOrderData>::empty(),
            r.asks() == Seq::<LimitOrderData>::empty(),
            r.mbids() == Seq::<MarketOrderData>::empty(),
            r.masks() == Seq::<MarketOrderData>::empty(),
            r.next_id() == 0,
            r.now() == 0,
    {
        let r = OrderBook {
            limit_asks: Vec::new(),
            limit_bids: Vec::new(),
            market_asks: Vec::new(),
            market_bids: Vec::new(),
            id: 0,
            time: 0,
        };
        assert(r.bids() =~= Seq::<LimitOrderData>::empty());
        assert(r.asks() =~= Seq::<LimitOrderData>::empty());
        assert(r.mbids() =~= Seq::<MarketOrderData>::empty());
        assert(r.masks() =~= Seq::<MarketOrderData>::empty());
        r
    }
}

/// Inserts a bid into a bid-sorted queue, keeping it sorted.
fn insert_bid(v: &mut Vec<LimitOrderData>, x: LimitOrderData) -> (k: usize)
    requires
        sorted_bids(old(v)@),
    ensures
        0 <= k <= old(v)@.len(),
        final(v)@ == old(v)@.insert(k as int, x),
        sorted_bids(final(v)@),
{
    let ghost orig = v@;
    let mut k = v.len();
    while k > 0 && !bid_le_exec(&v[k - 1], &x)
        invariant
            v@ == orig,
            0 <= k <= v@.len(),
            sorted_bids(orig),
            forall|j: int| k <= j < v@.len() ==> bid_le(x, #[trigger] v@[j]),
        decreases k,
    {
        proof {
            lemma_limit_le_total(orig[k - 1], x);
        }
        k = k - 1;
    }
    v.insert(k, x);
    proof {
        orig.insert_ensures(k as int, x);
        let s = orig.insert(k as int, x);
        assert forall|i: int, j: int| 0 <= i <= j < s.len() implies #[trigger] bid_le(s[i], s[j]) by {
            if j < k {
                assert(s[i] == orig[i] && s[j] == orig[j]);
            } else if i < k && j == k {
                assert(bid_le(orig[k - 1], x));
                lemma_limit_le_trans(orig[i], orig[k - 1], x);
            } else if i == k && j == k {
                lemma_limit_le_total(x, x);
            } else if i == k && j > k {
                assert(s[j] == orig[j - 1]);
            } else if i < k && j > k {
                assert(s[i] == orig[i] && s[j] == orig[j - 1]);
            } else {
                assert(s[i] == orig[i - 1] && s[j] == orig[j - 1]);
            }
        }
    }
    k
}

/// Inserts an ask into an ask-sorted queue, keeping it sorted.
fn insert_ask(v: &mut Vec<LimitOrderData>, x: LimitOrderData) -> (k: usize)
    requires
        sorted_asks(old(v)@),
    ensures
        0 <= k <= old(v)@.len(),
        final(v)@ == old(v)@.insert(k as int, x),
        sorted_asks(final(v)@),
{
    let ghost orig = v@;
    let mut k = v.len();
    while k > 0 && !ask_le_exec(&v[k - 1], &x)
        invariant
            v@ == orig,
            0 <= k <= v@.len(),
            sorted_asks(orig),
            forall|j: int| k <= j < v@.len() ==> ask_le(x, #[trigger] v@[j]),
        decreases k,
    {
        proof {
            lemma_limit_le_total(orig[k - 1], x);
        }
        k = k - 1;
    }
    v.insert(k, x);
    proof {
        orig.insert_ensures(k as int, x);
        let s = orig.insert(k as int, x);
        assert forall|i: int, j: int| 0 <= i <= j < s.len() implies #[trigger] ask_le(s[i], s[j]) by {
            if j < k {
                assert(s[i] == orig[i] && s[j] == orig[j]);
            } else if i < k && j == k {
                assert(ask_le(orig[k - 1], x));
                lemma_limit_le_trans(orig[i], orig[k - 1], x);
            } else if i == k && j == k {
                lemma_limit_le_total(x, x);
            } else if i == k && j > k {
                assert(s[j] == orig[j - 1]);
            } else if i < k && j > k {
                assert(s[i] == orig[i] && s[j] == orig[j - 1]);
            } else {
                assert(s[i] == orig[i - 1] && s[j] == orig[j - 1]);
            }
        }
    }
    k
}

/// Inserts a market order into a market-sorted queue, keeping it sorted.
fn insert_market(v: &mut Vec<MarketOrderData>, x: MarketOrderData) -> (k: usize)
    requires
        sorted_market(old(v)@),
    ensures
        0 <= k <= old(v)@.len(),
        final(v)@ == old(v)@.insert(k as int, x),
        sorted_market(final(v)@),
{
    let ghost orig = v@;
    let mut k = v.len();
    while k > 0 && !market_le_exec(&v[k - 1], &x)
        invariant
            v@ == orig,
            0 <= k <= v@.len(),
            sorted_market(orig),
            forall|j: int| k <= j < v@.len() ==> market_le(x, #[trigger] v@[j]),
        decreases k,
    {
        proof {
            lemma_market_le_total(orig[k - 1], x);
        }
        k = k - 1;
    }
    v.insert(k, x);
    proof {
        orig.insert_ensures(k as int, x);
        let s = orig.insert(k as int, x);
        assert forall|i: int, j: int| 0 <= i <= j < s.len() implies #[trigger] market_le(
            s[i],
            s[j],
        ) by {
            if j < k {
                assert(s[i] == orig[i] && s[j] == orig[j]);
            } else if i < k && j == k {
                assert(market_le(orig[k - 1], x));
                lemma_market_le_trans(orig[i], orig[k - 1], x);
            } else if i == k && j == k {
                lemma_market_le_total(x, x);
            } else if i == k && j > k {
                assert(s[j] == orig[j - 1]);
            } else if i < k && j > k {
                assert(s[i] == orig[i] && s[j] == orig[j - 1]);
            } else {
                assert(s[i] == orig[i - 1] && s[j] == orig[j - 1]);
            }
        }
    }
    k
}

impl OrderBook {
    /// Stamps an intent with the next id and the current timestamp,
    /// consuming the id.
    pub fn new_order_raw(&mut self, side: OrderSide, price: Option<Amount>, size: i64) -> (r:
        Order)
        requires
            old(self).next_id() < u64::MAX,
        ensures
            r == (Order {
                timestamp: old(self).now(),
                id: old(self).next_id(),
                side,
                price,
                size,
            }),
            final(self).next_id() == old(self).next_id() + 1,
            final(self).now() == old(self).now(),
            final(self).bids() == old(self).bids(),
            final(self).asks() == old(self).asks(),
            final(self).mbids() == old(self).mbids(),
            final(self).masks() == old(self).masks(),
    {
        let id = self.id;
        self.id = self.id + 1;
        Order { timestamp: self.time, id, side, price, size }
    }

    /// Stamps an intent without any check.
    pub fn new_order(&mut self, data: OrderData) -> (r: Order)
        requires
            old(self).next_id() < u64::MAX,
        ensures
            r == (Order {
                timestamp: old(self).now(),
                id: old(self).next_id(),
                side: data.side,
                price: data.price,
                size: data.size,
            }),
            final(self).next_id() == old(self).next_id() + 1,
            final(self).now() == old(self).now(),
            final(self).bids() == old(self).bids(),
            final(self).asks() == old(self).asks(),
            final(self).mbids() == old(self).mbids(),
            final(self).masks() == old(self).masks(),
    {
        self.new_order_raw(data.side, data.price, data.size)
    }

    /// Admission: a non-positive size, or a present non-positive price,
    /// yields no order and consumes no id; anything else is stamped.
    pub fn new_order_checked(&mut self, data: OrderData) -> (r: Option<Order>)
        requires
            old(self).next_id() < u64::MAX,
        ensures
            final(self).now() == old(self).now(),
            final(self).bids() == old(self).bids(),
            final(self).asks() == old(self).asks(),
            final(self).mbids() == old(self).mbids(),
            final(self).masks() == old(self).masks(),
            data_admissible(data) ==> r == Option::Some(
                Order {
                    timestamp: old(self).now(),
                    id: old(self).next_id(),
                    side: data.side,
                    price: data.price,
                    size: data.size,
                },
            ) && final(self).next_id() == old(self).next_id() + 1,
            !data_admissible(data) ==> r is None && final(self).next_id() == old(self).next_id(),
    {
        if let Option::Some(p) = data.price {
            if p.as_int <= 0 {
                return Option::None;
            }
        }
        if data.size <= 0 {
            return Option::None;
        }
        Option::Some(self.new_order(data))
    }

    /// Empties all four queues; the id and time counters keep running.
    pub fn clear_orders(&mut self)
        ensures
            final(self).wf(),
            final(self).bids() == Seq::<LimitOrderData>::empty(),
            final(self).asks() == Seq::<LimitOrderData>::empty(),
            final(self).mbids() == Seq::<MarketOrderData>::empty(),
            final(self).masks() == Seq::<MarketOrderData>::empty(),
            final(self).next_id() == old(self).next_id(),
            final(self).now() == old(self).now(),
    {
        self.limit_asks.clear();
        self.limit_bids.clear();
        self.market_asks.clear();
        self.market_bids.clear();
        proof {
            assert(self.bids() =~= Seq::<LimitOrderData>::empty());
            assert(self.asks() =~= Seq::<LimitOrderData>::empty());
            assert(self.mbids() =~= Seq::<MarketOrderData>::empty());
            assert(self.masks() =~= Seq::<MarketOrderData>::empty());
        }
    }

    /// Advances the admission timestamp by one tick.
    pub fn time_inc(&mut self)
        requires
            old(self).now() < i64::MAX,
        ensures
            final(self).now() == old(self).now() + 1,
            final(self).next_id() == old(self).next_id(),
            final(self).bids() == old(self).bids(),
            final(self).asks() == old(self).asks(),
            final(self).mbids() == old(self).mbids(),
            final(self).masks() == old(self).masks(),
    {
        self.time = self.time + 1;
    }

    /// Files an admitted order into the queue its price and side select.
    pub fn add_order(&mut self, order: Order)
        requires
            old(self).wf(),
            order.wf(),
        ensures
            final(self).wf(),
            final(self).next_id() == old(self).next_id(),
            final(self).now() == old(self).now(),
            order.price is None && order.side is Bid ==> {
                &&& (exists|k: int|
                    0 <= k <= old(self).mbids().len() && final(self).mbids() == old(
                        self,
                    ).mbids().insert(k, order.spec_market_data()->Some_0))
                &&& final(self).masks() == old(self).masks()
                &&& final(self).bids() == old(self).bids()
                &&& final(self).asks() == old(self).asks()
                &&& market_size_sum(final(self).mbids()) == market_size_sum(old(self).mbids())
                    + order.size
                &&& final(self).mbids().to_multiset() == old(self).mbids().to_multiset().insert(
                    order.spec_market_data()->Some_0,
                )
                &&& forall|oid: u64|
                    has_market_id(final(self).mbids(), oid) <==> (has_market_id(
                        old(self).mbids(),
                        oid,
                    ) || oid == order.id)
            },
            order.price is None && order.side is Ask ==> {
                &&& (exists|k: int|
                    0 <= k <= old(self).masks().len() && final(self).masks() == old(
                        self,
                    ).masks().insert(k, order.spec_market_data()->Some_0))
                &&& final(self).mbids() == old(self).mbids()
                &&& final(self).bids() == old(self).bids()
                &&& final(self).asks() == old(self).asks()
                &&& market_size_sum(final(self).masks()) == market_size_sum(old(self).masks())
                    + order.size
                &&& final(self).masks().to_multiset() == old(self).masks().to_multiset().insert(
                    order.spec_market_data()->Some_0,
                )
                &&& forall|oid: u64|
                    has_market_id(final(self).masks(), oid) <==> (has_market_id(
                        old(self).masks(),
                        oid,
                    ) || oid == order.id)
            },
            order.price is Some && order.side is Bid ==> {
                &&& (exists|k: int|
                    0 <= k <= old(self).bids().len() && final(self).bids() == old(
                        self,
                    ).bids().insert(k, order.spec_limit_data()->Some_0))
                &&& final(self).asks() == old(self).asks()
                &&& final(self).mbids() == old(self).mbids()
                &&& final(self).masks() == old(self).masks()
                &&& notional_sum(final(self).bids()) == notional_sum(old(self).bids())
                    + order.price->Some_0.as_int * order.size
                &&& limit_size_sum(final(self).bids()) == limit_size_sum(old(self).bids())
                    + order.size
                &&& final(self).bids().to_multiset() == old(self).bids().to_multiset().insert(
                    order.spec_limit_data()->Some_0,
                )
                &&& forall|oid: u64|
                    has_limit_id(final(self).bids(), oid) <==> (has_limit_id(
                        old(self).bids(),
                        oid,
                    ) || oid == order.id)
            },
            order.price is Some && order.side is Ask ==> {
                &&& (exists|k: int|
                    0 <= k <= old(self).asks().len() && final(self).asks() == old(
                        self,
                    ).asks().insert(k, order.spec_limit_data()->Some_0))
                &&& final(self).bids() == old(self).bids()
                &&& final(self).mbids() == old(self).mbids()
                &&& final(self).masks() == old(self).masks()
                &&& notional_sum(final(self).asks()) == notional_sum(old(self).asks())
                    + order.price->Some_0.as_int * order.size
                &&& limit_size_sum(final(self).asks()) == limit_size_sum(old(self).asks())
                    + order.size
                &&& final(self).asks().to_multiset() == old(self).asks().to_multiset().insert(
                    order.spec_limit_data()->Some_0,
                )
                &&& forall|oid: u64|
                    has_limit_id(final(self).asks(), oid) <==> (has_limit_id(
                        old(self).asks(),
                        oid,
                    ) || oid == order.id)
            },
    {
        match (order.price, order.side) {
            (Option::None, OrderSide::Bid) => {
                let ghost orig = self.mbids();
                let data = MarketOrderData {
                    timestamp: order.timestamp,
                    id: order.id,
                    size: order.size,
                };
                let k = insert_market(&mut self.market_bids, data);
                proof {
                    orig.insert_ensures(k as int, data);
                    crate::sums::lemma_insert_to_multiset(orig, k as int, data);
                    assert(order.spec_market_data()->Some_0 == data);
                    assert(exists|kk: int|
                        0 <= kk <= orig.len() && self.mbids() == orig.insert(
                            kk,
                            order.spec_market_data()->Some_0,
                        )) by {
                        assert(self.mbids() == orig.insert(k as int, order.spec_market_data()->Some_0));
                    }
                    lemma_sum_by_insert(orig, k as int, data, |o: MarketOrderData| o.size as int);
                    assert(market_entries_wf(self.mbids()));
                    assert forall|oid: u64| has_market_id(self.mbids(), oid) <==> (has_market_id(
                        orig,
                        oid,
                    ) || oid == order.id) by {
                        lemma_insert_market_ids(orig, k as int, data, oid);
                    }
                }
            },
            (Option::None, OrderSide::Ask) => {
                let ghost orig = self.masks();
                let data = MarketOrderData {
                    timestamp: order.timestamp,
                    id: order.id,
                    size: order.size,
                };
                let k = insert_market(&mut self.market_asks, data);
                proof {
                    orig.insert_ensures(k as int, data);
                    crate::sums::lemma_insert_to_multiset(orig, k as int, data);
                    assert(order.spec_market_data()->Some_0 == data);
                    assert(exists|kk: int|
                        0 <= kk <= orig.len() && self.masks() == orig.insert(
                            kk,
                            order.spec_market_data()->Some_0,
                        )) by {
                        assert(self.masks() == orig.insert(k as int, order.spec_market_data()->Some_0));
                    }
                    lemma_sum_by_insert(orig, k as int, data, |o: MarketOrderData| o.size as int);
                    assert(market_entries_wf(self.masks()));
                    assert forall|oid: u64| has_market_id(self.masks(), oid) <==> (has_market_id(
                        orig,
                        oid,
                    ) || oid == order.id) by {
                        lemma_insert_market_ids(orig, k as int, data, oid);
                    }
                }
            },
            (Option::Some(p), OrderSide::Bid) => {
                let ghost orig = self.bids();
                let data = LimitOrderData {
                    timestamp: order.timestamp,
                    id: order.id,
                    price: p,
                    size: order.size,
                };
                let k = insert_bid(&mut self.limit_bids, data);
                proof {
                    orig.insert_ensures(k as int, data);
                    crate::sums::lemma_insert_to_multiset(orig, k as int, data);
                    assert(order.spec_limit_data()->Some_0 == data);
                    assert(exists|kk: int|
                        0 <= kk <= orig.len() && self.bids() == orig.insert(
                            kk,
                            order.spec_limit_data()->Some_0,
                        )) by {
                        assert(self.bids() == orig.insert(k as int, order.spec_limit_data()->Some_0));
                    }
                    lemma_sum_by_insert(orig, k as int, data, |o: LimitOrderData| limit_notional(o));
                    lemma_sum_by_insert(orig, k as int, data, |o: LimitOrderData| o.size as int);
                    assert(limit_entries_wf(self.bids()));
                    assert forall|oid: u64| has_limit_id(self.bids(), oid) <==> (has_limit_id(
                        orig,
                        oid,
                    ) || oid == order.id) by {
                        lemma_insert_limit_ids(orig, k as int, data, oid);
                    }
                }
            },
            (Option::Some(p), OrderSide::Ask) => {
                let ghost orig = self.asks();
                let data = LimitOrderData {
                    timestamp: order.timestamp,
                    id: order.id,
                    price: p,
                    size: order.size,
                };
                let k = insert_ask(&mut self.limit_asks, data);
                proof {
                    orig.insert_ensures(k as int, data);
                    crate::sums::lemma_insert_to_multiset(orig, k as int, data);
                    assert(order.spec_limit_data()->Some_0 == data);
                    assert(exists|kk: int|
                        0 <= kk <= orig.len() && self.asks() == orig.insert(
                            kk,
                            order.spec_limit_data()->Some_0,
                        )) by {
                        assert(self.asks() == orig.insert(k as int, order.spec_limit_data()->Some_0));
                    }
                    lemma_sum_by_insert(orig, k as int, data, |o: LimitOrderData| limit_notional(o));
                    lemma_sum_by_insert(orig, k as int, data, |o: LimitOrderData| o.size as int);
                    assert(limit_entries_wf(self.asks()));
                    assert forall|oid: u64| has_limit_id(self.asks(), oid) <==> (has_limit_id(
                        orig,
                        oid,
                    ) || oid == order.id) by {
                        lemma_insert_limit_ids(orig, k as int, data, oid);
                    }
                }
            },
        }
    }
}

/// Inserting a limit order adds exactly its id to the ids of the queue.
proof fn lemma_insert_limit_ids(s: Seq<LimitOrderData>, k: int, x: LimitOrderData, oid: u64)
    requires
        0 <= k <= s.len(),
    ensures
        has_limit_id(s.insert(k, x), oid) <==> (has_limit_id(s, oid) || oid == x.id),
{
    s.insert_ensures(k, x);
    let t = s.insert(k, x);
    if has_limit_id(s, oid) {
        let j = choose|j: int| 0 <= j < s.len() && s[j].id == oid;
        if j < k {
            assert(t[j].id == oid);
        } else {
            assert(t[j + 1].id == oid);
        }
    }
    if oid == x.id {
        assert(t[k].id == oid);
    }
    if has_limit_id(t, oid) && oid != x.id {
        let j = choose|j: int| 0 <= j < t.len() && t[j].id == oid;
        if j < k {
            assert(s[j].id == oid);
        } else if j > k {
            assert(s[j - 1].id == oid);
        }
    }
}

/// Inserting a market order adds exactly its id to the ids of the queue.
proof fn lemma_insert_market_ids(s: Seq<MarketOrderData>, k: int, x: MarketOrderData, oid: u64)
    requires
        0 <= k <= s.len(),
    ensures
        has_market_id(s.insert(k, x), oid) <==> (has_market_id(s, oid) || oid == x.id),
{
    s.insert_ensures(k, x);
    let t = s.insert(k, x);
    if has_market_id(s, oid) {
        let j = choose|j: int| 0 <= j < s.len() && s[j].id == oid;
        if j < k {
            assert(t[j].id == oid);
        } else {
            assert(t[j + 1].id == oid);
        }
    }
    if oid == x.id {
        assert(t[k].id == oid);
    }
    if has_market_id(t, oid) && oid != x.id {
        let j = choose|j: int| 0 <= j < t.len() && t[j].id == oid;
        if j < k {
            assert(s[j].id == oid);
        } else if j > k {
            assert(s[j - 1].id == oid);
        }
    }
}

impl Default for OrderBook {
    fn default() -> (r: Self)
        ensures
            r.wf(),
            r.bids() == Seq::<LimitOrderData>::empty(),
            r.asks() == Seq::<LimitOrderData>::empty(),
            r.mbids() == Seq::<MarketOrderData>::empty(),
            r.masks() == Seq::<MarketOrderData>::empty(),
            r.next_id() == 0,
            r.now() == 0,
    {
        Self::empty()
    }
}

} // verus!

verus! {

/// The two sides of one limit match: `p` times `s` stays within the book's
/// caps, and a higher bid price gives the bidder the larger notional.
proof fn lemma_match_products(bp: int, ap: int, ts: int)
    requires
        0 < bp <= MAX_ORDER_PRICE,
        0 < ap <= bp,
        0 < ts <= MAX_ORDER_SIZE,
    ensures
        0 < ap * ts <= bp * ts <= MAX_ORDER_PRICE * MAX_ORDER_SIZE,
{
    assert(0 < ap * ts <= bp * ts <= MAX_ORDER_PRICE * MAX_ORDER_SIZE) by (nonlinear_arith)
        requires
            0 < bp <= MAX_ORDER_PRICE,
            0 < ap <= bp,
            0 < ts <= MAX_ORDER_SIZE,
    ;
}

/// Shrinking an order by the traded size takes exactly the traded notional
/// out of it.
proof fn lemma_shrink_notional(p: int, s: int, ts: int)
    requires
        0 < ts <= s,
    ensures
        p * s - p * (s - ts) == p * ts,
{
    assert(p * s - p * (s - ts) == p * ts) by (nonlinear_arith);
}

impl OrderBook {
    /// One limit-versus-limit match: while the best bid pays at least what
    /// the best ask demands, they trade the smaller of their sizes at each
    /// one's own price; the difference accrues to the house.
    pub fn match_limit_orders(&mut self) -> (r: Option<Transaction>)
        requires
            old(self).wf(),
        ensures
            final(self).wf(),
            final(self).mbids() == old(self).mbids(),
            final(self).masks() == old(self).masks(),
            final(self).next_id() == old(self).next_id(),
            final(self).now() == old(self).now(),
            !limit_cross(old(self).bids(), old(self).asks()) ==> r is None && *final(self) == *old(
                self,
            ),
            limit_cross(old(self).bids(), old(self).asks()) ==> r is Some && {
                let b = old(self).bids().last();
                let a = old(self).asks().last();
                let ts = if b.size <= a.size {
                    b.size as int
                } else {
                    a.size as int
                };
                let t = r->Some_0;
                &&& t.bid_id == b.id
                &&& t.ask_id == a.id
                &&& t.size == ts
                &&& t.bid_loss.as_int == b.price.as_int * ts
                &&& t.ask_gain.as_int == a.price.as_int * ts
                &&& t.wf()
                &&& t.bid_loss.as_int <= MAX_ORDER_PRICE as int * MAX_ORDER_SIZE as int
                &&& final(self).bids() == (if b.size > ts {
                    old(self).bids().update(
                        old(self).bids().len() - 1,
                        LimitOrderData {
                            timestamp: b.timestamp,
                            id: b.id,
                            price: b.price,
                            size: (b.size - ts) as i64,
                        },
                    )
                } else {
                    old(self).bids().drop_last()
                })
                &&& final(self).asks() == (if a.size > ts {
                    old(self).asks().update(
                        old(self).asks().len() - 1,
                        LimitOrderData {
                            timestamp: a.timestamp,
                            id: a.id,
                            price: a.price,
                            size: (a.size - ts) as i64,
                        },
                    )
                } else {
                    old(self).asks().drop_last()
                })
                &&& notional_sum(final(self).bids()) == notional_sum(old(self).bids())
                    - t.bid_loss.as_int
                &&& notional_sum(final(self).asks()) == notional_sum(old(self).asks())
                    - t.ask_gain.as_int
                &&& limit_size_sum(final(self).bids()) == limit_size_sum(old(self).bids()) - ts
                &&& limit_size_sum(final(self).asks()) == limit_size_sum(old(self).asks()) - ts
                &&& has_limit_id(old(self).bids(), t.bid_id)
                &&& has_limit_id(old(self).asks(), t.ask_id)
                &&& forall|oid: u64|
                    has_limit_id(final(self).bids(), oid) ==> has_limit_id(old(self).bids(), oid)
                &&& forall|oid: u64|
                    has_limit_id(final(self).asks(), oid) ==> has_limit_id(old(self).asks(), oid)
            },
    {
        let nb = self.limit_bids.len();
        let na = self.limit_asks.len();
        if nb == 0 || na == 0 {
            return Option::None;
        }
        let b = self.limit_bids[nb - 1];
        let a = self.limit_asks[na - 1];
        if b.price.as_int < a.price.as_int {
            return Option::None;
        }
        let ghost bids0 = self.bids();
        let ghost asks0 = self.asks();
        proof {
            assert(limit_entry_wf(bids0[nb - 1]));
            assert(limit_entry_wf(asks0[na - 1]));
        }
        let ts = if b.size <= a.size {
            b.size
        } else {
            a.size
        };
        proof {
            lemma_match_products(b.price.as_int as int, a.price.as_int as int, ts as int);
        }
        let bid_loss = Amount { as_int: b.price.as_int * ts };
        let ask_gain = Amount { as_int: a.price.as_int * ts };
        let diff = Amount { as_int: bid_loss.as_int - ask_gain.as_int };
        let t = Transaction { bid_id: b.id, ask_id: a.id, size: ts, bid_loss, ask_gain, diff };
        self.limit_bids.pop();
        if b.size > ts {
            let reduced = LimitOrderData {
                timestamp: b.timestamp,
                id: b.id,
                price: b.price,
                size: b.size - ts,
            };
            self.limit_bids.push(reduced);
            proof {
                assert(self.bids() =~= bids0.update(bids0.len() - 1, reduced));
                lemma_sum_by_update(
                    bids0,
                    bids0.len() - 1,
                    reduced,
                    |o: LimitOrderData| limit_notional(o),
                );
                lemma_sum_by_update(bids0, bids0.len() - 1, reduced, |o: LimitOrderData| o.size as int);
                lemma_shrink_notional(b.price.as_int as int, b.size as int, ts as int);
                assert forall|i: int, j: int| 0 <= i <= j < self.bids().len() implies #[trigger] bid_le(
                    self.bids()[i],
                    self.bids()[j],
                ) by {
                    assert(bid_le(bids0[i], bids0[j]));
                }
                assert forall|oid: u64| has_limit_id(self.bids(), oid) implies has_limit_id(
                    bids0,
                    oid,
                ) by {
                    let j = choose|j: int| 0 <= j < self.bids().len() && self.bids()[j].id == oid;
                    assert(bids0[j].id == oid);
                }
            }
        } else {
            proof {
                assert(self.bids() == bids0.drop_last());
                lemma_shrink_notional(b.price.as_int as int, b.size as int, ts as int);
                assert forall|oid: u64| has_limit_id(self.bids(), oid) implies has_limit_id(
                    bids0,
                    oid,
                ) by {
                    let j = choose|j: int| 0 <= j < self.bids().len() && self.bids()[j].id == oid;
                    assert(bids0[j].id == oid);
                }
            }
        }
        self.limit_asks.pop();
        if a.size > ts {
            let reduced = LimitOrderData {
                timestamp: a.timestamp,
                id: a.id,
                price: a.price,
                size: a.size - ts,
            };
            self.limit_asks.push(reduced);
            proof {
                assert(self.asks() =~= asks0.update(asks0.len() - 1, reduced));
                lemma_sum_by_update(
                    asks0,
                    asks0.len() - 1,
                    reduced,
                    |o: LimitOrderData| limit_notional(o),
                );
                lemma_sum_by_update(asks0, asks0.len() - 1, reduced, |o: LimitOrderData| o.size as int);
                lemma_shrink_notional(a.price.as_int as int, a.size as int, ts as int);
                assert forall|i: int, j: int| 0 <= i <= j < self.asks().len() implies #[trigger] ask_le(
                    self.asks()[i],
                    self.asks()[j],
                ) by {
                    assert(ask_le(asks0[i], asks0[j]));
                }
                assert forall|oid: u64| has_limit_id(self.asks(), oid) implies has_limit_id(
                    asks0,
                    oid,
                ) by {
                    let j = choose|j: int| 0 <= j < self.asks().len() && self.asks()[j].id == oid;
                    assert(asks0[j].id == oid);
                }
            }
        } else {
            proof {
                assert(self.asks() == asks0.drop_last());
                lemma_shrink_notional(a.price.as_int as int, a.size as int, ts as int);
                assert forall|oid: u64| has_limit_id(self.asks(), oid) implies has_limit_id(
                    asks0,
                    oid,
                ) by {
                    let j = choose|j: int| 0 <= j < self.asks().len() && self.asks()[j].id == oid;
                    assert(asks0[j].id == oid);
                }
            }
        }
        proof {
            assert(has_limit_id(bids0, b.id)) by {
                assert(bids0[bids0.len() - 1].id == b.id);
            }
            assert(has_limit_id(asks0, a.id)) by {
                assert(asks0[asks0.len() - 1].id == a.id);
            }
        }
        Option::Some(t)
    }
}

} // verus!

verus! {

impl OrderBook {
    /// One market-ask-versus-limit-bid match: the limit bid sets the price,
    /// the market ask accepts it, so both sides move the same money and the
    /// house difference is zero.
    pub fn match_ask_market_order(&mut self) -> (r: Option<Transaction>)
        requires
            old(self).wf(),
        ensures
            final(self).wf(),
            final(self).mbids() == old(self).mbids(),
            final(self).asks() == old(self).asks(),
            final(self).next_id() == old(self).next_id(),
            final(self).now() == old(self).now(),
            !(old(self).masks().len() > 0 && old(self).bids().len() > 0) ==> r is None && *final(self)
                == *old(self),
            old(self).masks().len() > 0 && old(self).bids().len() > 0 ==> r is Some && {
                let m = old(self).masks().last();
                let b = old(self).bids().last();
                let ts = if m.size <= b.size {
                    m.size as int
                } else {
                    b.size as int
                };
                let t = r->Some_0;
                &&& t.bid_id == b.id
                &&& t.ask_id == m.id
                &&& t.size == ts
                &&& t.bid_loss.as_int == b.price.as_int * ts
                &&& t.ask_gain == t.bid_loss
                &&& t.diff.as_int == 0
                &&& t.wf()
                &&& t.bid_loss.as_int <= MAX_ORDER_PRICE as int * MAX_ORDER_SIZE as int
                &&& final(self).masks() == (if m.size > ts {
                    old(self).masks().update(
                        old(self).masks().len() - 1,
                        MarketOrderData { timestamp: m.timestamp, id: m.id, size: (m.size - ts) as i64 },
                    )
                } else {
                    old(self).masks().drop_last()
                })
                &&& final(self).bids() == (if b.size > ts {
                    old(self).bids().update(
                        old(self).bids().len() - 1,
                        LimitOrderData {
                            timestamp: b.timestamp,
                            id: b.id,
                            price: b.price,
                            size: (b.size - ts) as i64,
                        },
                    )
                } else {
                    old(self).bids().drop_last()
                })
                &&& market_size_sum(final(self).masks()) == market_size_sum(old(self).masks()) - ts
                &&& notional_sum(final(self).bids()) == notional_sum(old(self).bids())
                    - t.bid_loss.as_int
                &&& limit_size_sum(final(self).bids()) == limit_size_sum(old(self).bids()) - ts
                &&& has_market_id(old(self).masks(), t.ask_id)
                &&& has_limit_id(old(self).bids(), t.bid_id)
                &&& forall|oid: u64|
                    has_market_id(final(self).masks(), oid) ==> has_market_id(
                        old(self).masks(),
                        oid,
                    )
                &&& forall|oid: u64|
                    has_limit_id(final(self).bids(), oid) ==> has_limit_id(old(self).bids(), oid)
            },
    {
        let nm = self.market_asks.len();
        let nb = self.limit_bids.len();
        if nm == 0 || nb == 0 {
            return Option::None;
        }
        let m = self.market_asks[nm - 1];
        let b = self.limit_bids[nb - 1];
        let ghost masks0 = self.masks();
        let ghost bids0 = self.bids();
        proof {
            assert(market_entry_wf(masks0[nm - 1]));
            assert(limit_entry_wf(bids0[nb - 1]));
        }
        let ts = if m.size <= b.size {
            m.size
        } else {
            b.size
        };
        proof {
            lemma_match_products(b.price.as_int as int, b.price.as_int as int, ts as int);
        }
        let bid_loss = Amount { as_int: b.price.as_int * ts };
        let t = Transaction {
            bid_id: b.id,
            ask_id: m.id,
            size: ts,
            bid_loss,
            ask_gain: bid_loss,
            diff: Amount { as_int: 0 },
        };
        self.market_asks.pop();
        if m.size > ts {
            let reduced = MarketOrderData { timestamp: m.timestamp, id: m.id, size: m.size - ts };
            self.market_asks.push(reduced);
            proof {
                assert(self.masks() =~= masks0.update(masks0.len() - 1, reduced));
                lemma_sum_by_update(
                    masks0,
                    masks0.len() - 1,
                    reduced,
                    |o: MarketOrderData| o.size as int,
                );
                assert forall|i: int, j: int|
                    0 <= i <= j < self.masks().len() implies #[trigger] market_le(
                    self.masks()[i],
                    self.masks()[j],
                ) by {
                    assert(market_le(masks0[i], masks0[j]));
                }
                assert forall|oid: u64| has_market_id(self.masks(), oid) implies has_market_id(
                    masks0,
                    oid,
                ) by {
                    let j = choose|j: int| 0 <= j < self.masks().len() && self.masks()[j].id == oid;
                    assert(masks0[j].id == oid);
                }
            }
        } else {
            proof {
                assert(self.masks() == masks0.drop_last());
                assert forall|oid: u64| has_market_id(self.masks(), oid) implies has_market_id(
                    masks0,
                    oid,
                ) by {
                    let j = choose|j: int| 0 <= j < self.masks().len() && self.masks()[j].id == oid;
                    assert(masks0[j].id == oid);
                }
            }
        }
        self.limit_bids.pop();
        if b.size > ts {
            let reduced = LimitOrderData {
                timestamp: b.timestamp,
                id: b.id,
                price: b.price,
                size: b.size - ts,
            };
            self.limit_bids.push(reduced);
            proof {
                assert(self.bids() =~= bids0.update(bids0.len() - 1, reduced));
                lemma_sum_by_update(
                    bids0,
                    bids0.len() - 1,
                    reduced,
                    |o: LimitOrderData| limit_notional(o),
                );
                lemma_sum_by_update(bids0, bids0.len() - 1, reduced, |o: LimitOrderData| o.size as int);
                lemma_shrink_notional(b.price.as_int as int, b.size as int, ts as int);
                assert forall|i: int, j: int| 0 <= i <= j < self.bids().len() implies #[trigger] bid_le(
                    self.bids()[i],
                    self.bids()[j],
                ) by {
                    assert(bid_le(bids0[i], bids0[j]));
                }
                assert forall|oid: u64| has_limit_id(self.bids(), oid) implies has_limit_id(
                    bids0,
                    oid,
                ) by {
                    let j = choose|j: int| 0 <= j < self.bids().len() && self.bids()[j].id == oid;
                    assert(bids0[j].id == oid);
                }
            }
        } else {
            proof {
                assert(self.bids() == bids0.drop_last());
                lemma_shrink_notional(b.price.as_int as int, b.size as int, ts as int);
                assert forall|oid: u64| has_limit_id(self.bids(), oid) implies has_limit_id(
                    bids0,
                    oid,
                ) by {
                    let j = choose|j: int| 0 <= j < self.bids().len() && self.bids()[j].id == oid;
                    assert(bids0[j].id == oid);
                }
            }
        }
        proof {
            assert(has_market_id(masks0, m.id)) by {
                assert(masks0[masks0.len() - 1].id == m.id);
            }
            assert(has_limit_id(bids0, b.id)) by {
                assert(bids0[bids0.len() - 1].id == b.id);
            }
        }
        Option::Some(t)
    }

    /// One market-bid-versus-limit-ask match: the limit ask sets the price,
    /// the market bid accepts it, so the house difference is zero.
    pub fn match_bid_market_order(&mut self) -> (r: Option<Transaction>)
        requires
            old(self).wf(),
        ensures
            final(self).wf(),
            final(self).masks() == old(self).masks(),
            final(self).bids() == old(self).bids(),
            final(self).next_id() == old(self).next_id(),
            final(self).now() == old(self).now(),
            !(old(self).mbids().len() > 0 && old(self).asks().len() > 0) ==> r is None && *final(self)
                == *old(self),
            old(self).mbids().len() > 0 && old(self).asks().len() > 0 ==> r is Some && {
                let m = old(self).mbids().last();
                let a = old(self).asks().last();
                let ts = if m.size <= a.size {
                    m.size as int
                } else {
                    a.size as int
                };
                let t = r->Some_0;
                &&& t.bid_id == m.id
                &&& t.ask_id == a.id
                &&& t.size == ts
                &&& t.bid_loss.as_int == a.price.as_int * ts
                &&& t.ask_gain == t.bid_loss
                &&& t.diff.as_int == 0
                &&& t.wf()
                &&& t.bid_loss.as_int <= MAX_ORDER_PRICE as int * MAX_ORDER_SIZE as int
                &&& final(self).mbids() == (if m.size > ts {
                    old(self).mbids().update(
                        old(self).mbids().len() - 1,
                        MarketOrderData { timestamp: m.timestamp, id: m.id, size: (m.size - ts) as i64 },
                    )
                } else {
                    old(self).mbids().drop_last()
                })
                &&& final(self).asks() == (if a.size > ts {
                    old(self).asks().update(
                        old(self).asks().len() - 1,
                        LimitOrderData {
                            timestamp: a.timestamp,
                            id: a.id,
                            price: a.price,
                            size: (a.size - ts) as i64,
                        },
                    )
                } else {
                    old(self).asks().drop_last()
                })
                &&& market_size_sum(final(self).mbids()) == market_size_sum(old(self).mbids()) - ts
                &&& notional_sum(final(self).asks()) == notional_sum(old(self).asks())
                    - t.ask_gain.as_int
                &&& limit_size_sum(final(self).asks()) == limit_size_sum(old(self).asks()) - ts
                &&& has_market_id(old(self).mbids(), t.bid_id)
                &&& has_limit_id(old(self).asks(), t.ask_id)
                &&& forall|oid: u64|
                    has_market_id(final(self).mbids(), oid) ==> has_market_id(
                        old(self).mbids(),
                        oid,
                    )
                &&& forall|oid: u64|
                    has_limit_id(final(self).asks(), oid) ==> has_limit_id(old(self).asks(), oid)
            },
    {
        let nm = self.market_bids.len();
        let na = self.limit_asks.len();
        if nm == 0 || na == 0 {
            return Option::None;
        }
        let m = self.market_bids[nm - 1];
        let a = self.limit_asks[na - 1];
        let ghost mbids0 = self.mbids();
        let ghost asks0 = self.asks();
        proof {
            assert(market_entry_wf(mbids0[nm - 1]));
            assert(limit_entry_wf(asks0[na - 1]));
        }
        let ts = if m.size <= a.size {
            m.size
        } else {
            a.size
        };
        proof {
            lemma_match_products(a.price.as_int as int, a.price.as_int as int, ts as int);
        }
        let ask_gain = Amount { as_int: a.price.as_int * ts };
        let t = Transaction {
            bid_id: m.id,
            ask_id: a.id,
            size: ts,
            bid_loss: ask_gain,
            ask_gain,
            diff: Amount { as_int: 0 },
        };
        self.market_bids.pop();
        if m.size > ts {
            let reduced = MarketOrderData { timestamp: m.timestamp, id: m.id, size: m.size - ts };
            self.market_bids.push(reduced);
            proof {
                assert(self.mbids() =~= mbids0.update(mbids0.len() - 1, reduced));
                lemma_sum_by_update(
                    mbids0,
                    mbids0.len() - 1,
                    reduced,
                    |o: MarketOrderData| o.size as int,
                );
                assert forall|i: int, j: int|
                    0 <= i <= j < self.mbids().len() implies #[trigger] market_le(
                    self.mbids()[i],
                    self.mbids()[j],
                ) by {
                    assert(market_le(mbids0[i], mbids0[j]));
                }
                assert forall|oid: u64| has_market_id(self.mbids(), oid) implies has_market_id(
                    mbids0,
                    oid,
                ) by {
                    let j = choose|j: int| 0 <= j < self.mbids().len() && self.mbids()[j].id == oid;
                    assert(mbids0[j].id == oid);
                }
            }
        } else {
            proof {
                assert(self.mbids() == mbids0.drop_last());
                assert forall|oid: u64| has_market_id(self.mbids(), oid) implies has_market_id(
                    mbids0,
                    oid,
                ) by {
                    let j = choose|j: int| 0 <= j < self.mbids().len() && self.mbids()[j].id == oid;
                    assert(mbids0[j].id == oid);
                }
            }
        }
        self.limit_asks.pop();
        if a.size > ts {
            let reduced = LimitOrderData {
                timestamp: a.timestamp,
                id: a.id,
                price: a.price,
                size: a.size - ts,
            };
            self.limit_asks.push(reduced);
            proof {
                assert(self.asks() =~= asks0.update(asks0.len() - 1, reduced));
                lemma_sum_by_update(
                    asks0,
                    asks0.len() - 1,
                    reduced,
                    |o: LimitOrderData| limit_notional(o),
                );
                lemma_sum_by_update(asks0, asks0.len() - 1, reduced, |o: LimitOrderData| o.size as int);
                lemma_shrink_notional(a.price.as_int as int, a.size as int, ts as int);
                assert forall|i: int, j: int| 0 <= i <= j < self.asks().len() implies #[trigger] ask_le(
                    self.asks()[i],
                    self.asks()[j],
                ) by {
                    assert(ask_le(asks0[i], asks0[j]));
                }
                assert forall|oid: u64| has_limit_id(self.asks(), oid) implies has_limit_id(
                    asks0,
                    oid,
                ) by {
                    let j = choose|j: int| 0 <= j < self.asks().len() && self.asks()[j].id == oid;
                    assert(asks0[j].id == oid);
                }
            }
        } else {
            proof {
                assert(self.asks() == asks0.drop_last());
                lemma_shrink_notional(a.price.as_int as int, a.size as int, ts as int);
                assert forall|oid: u64| has_limit_id(self.asks(), oid) implies has_limit_id(
                    asks0,
                    oid,
                ) by {
                    let j = choose|j: int| 0 <= j < self.asks().len() && self.asks()[j].id == oid;
                    assert(asks0[j].id == oid);
                }
            }
        }
        proof {
            assert(has_market_id(mbids0, m.id)) by {
                assert(mbids0[mbids0.len() - 1].id == m.id);
            }
            assert(has_limit_id(asks0, a.id)) by {
                assert(asks0[asks0.len() - 1].id == a.id);
            }
        }
        Option::Some(t)
    }

    /// One market-versus-market match at the given fallback price; the
    /// house difference is zero.
    pub fn match_market_orders(&mut self, default_price: Amount) -> (r: Option<Transaction>)
        requires
            old(self).wf(),
            0 <= default_price.as_int <= MAX_FALLBACK_PRICE,
        ensures
            final(self).wf(),
            final(self).bids() == old(self).bids(),
            final(self).asks() == old(self).asks(),
            final(self).next_id() == old(self).next_id(),
            final(self).now() == old(self).now(),
            !(old(self).mbids().len() > 0 && old(self).masks().len() > 0) ==> r is None && *final(self)
                == *old(self),
            old(self).mbids().len() > 0 && old(self).masks().len() > 0 ==> r is Some && {
                let mb = old(self).mbids().last();
                let ma = old(self).masks().last();
                let ts = if mb.size <= ma.size {
                    mb.size as int
                } else {
                    ma.size as int
                };
                let t = r->Some_0;
                &&& t.bid_id == mb.id
                &&& t.ask_id == ma.id
                &&& t.size == ts
                &&& t.bid_loss.as_int == default_price.as_int * ts
                &&& t.ask_gain == t.bid_loss
                &&& t.diff.as_int == 0
                &&& t.wf()
                &&& t.bid_loss.as_int <= MAX_FALLBACK_PRICE as int * MAX_ORDER_SIZE as int
                &&& final(self).mbids() == (if mb.size > ts {
                    old(self).mbids().update(
                        old(self).mbids().len() - 1,
                        MarketOrderData {
                            timestamp: mb.timestamp,
                            id: mb.id,
                            size: (mb.size - ts) as i64,
                        },
                    )
                } else {
                    old(self).mbids().drop_last()
                })
                &&& final(self).masks() == (if ma.size > ts {
                    old(self).masks().update(
                        old(self).masks().len() - 1,
                        MarketOrderData {
                            timestamp: ma.timestamp,
                            id: ma.id,
                            size: (ma.size - ts) as i64,
                        },
                    )
                } else {
                    old(self).masks().drop_last()
                })
                &&& market_size_sum(final(self).mbids()) == market_size_sum(old(self).mbids()) - ts
                &&& market_size_sum(final(self).masks()) == market_size_sum(old(self).masks()) - ts
                &&& has_market_id(old(self).mbids(), t.bid_id)
                &&& has_market_id(old(self).masks(), t.ask_id)
                &&& forall|oid: u64|
                    has_market_id(final(self).mbids(), oid) ==> has_market_id(
                        old(self).mbids(),
                        oid,
                    )
                &&& forall|oid: u64|
                    has_market_id(final(self).masks(), oid) ==> has_market_id(
                        old(self).masks(),
                        oid,
                    )
            },
    {
        let nb = self.market_bids.len();
        let na = self.market_asks.len();
        if nb == 0 || na == 0 {
            return Option::None;
        }
        let mb = self.market_bids[nb - 1];
        let ma = self.market_asks[na - 1];
        let ghost mbids0 = self.mbids();
        let ghost masks0 = self.masks();
        proof {
            assert(market_entry_wf(mbids0[nb - 1]));
            assert(market_entry_wf(masks0[na - 1]));
        }
        let ts = if mb.size <= ma.size {
            mb.size
        } else {
            ma.size
        };
        proof {
            assert(0 <= default_price.as_int * ts <= MAX_FALLBACK_PRICE * MAX_ORDER_SIZE)
                by (nonlinear_arith)
                requires
                    0 <= default_price.as_int <= MAX_FALLBACK_PRICE,
                    0 < ts <= MAX_ORDER_SIZE,
            ;
        }
        let bid_loss = Amount { as_int: default_price.as_int * ts };
        let t = Transaction {
            bid_id: mb.id,
            ask_id: ma.id,
            size: ts,
            bid_loss,
            ask_gain: bid_loss,
            diff: Amount { as_int: 0 },
        };
        self.market_bids.pop();
        if mb.size > ts {
            let reduced = MarketOrderData { timestamp: mb.timestamp, id: mb.id, size: mb.size - ts };
            self.market_bids.push(reduced);
            proof {
                assert(self.mbids() =~= mbids0.update(mbids0.len() - 1, reduced));
                lemma_sum_by_update(
                    mbids0,
                    mbids0.len() - 1,
                    reduced,
                    |o: MarketOrderData| o.size as int,
                );
                assert forall|i: int, j: int|
                    0 <= i <= j < self.mbids().len() implies #[trigger] market_le(
                    self.mbids()[i],
                    self.mbids()[j],
                ) by {
                    assert(market_le(mbids0[i], mbids0[j]));
                }
                assert forall|oid: u64| has_market_id(self.mbids(), oid) implies has_market_id(
                    mbids0,
                    oid,
                ) by {
                    let j = choose|j: int| 0 <= j < self.mbids().len() && self.mbids()[j].id == oid;
                    assert(mbids0[j].id == oid);
                }
            }
        } else {
            proof {
                assert(self.mbids() == mbids0.drop_last());
                assert forall|oid: u64| has_market_id(self.mbids(), oid) implies has_market_id(
                    mbids0,
                    oid,
                ) by {
                    let j = choose|j: int| 0 <= j < self.mbids().len() && self.mbids()[j].id == oid;
                    assert(mbids0[j].id == oid);
                }
            }
        }
        self.market_asks.pop();
        if ma.size > ts {
            let reduced = MarketOrderData { timestamp: ma.timestamp, id: ma.id, size: ma.size - ts };
            self.market_asks.push(reduced);
            proof {
                assert(self.masks() =~= masks0.update(masks0.len() - 1, reduced));
                lemma_sum_by_update(
                    masks0,
                    masks0.len() - 1,
                    reduced,
                    |o: MarketOrderData| o.size as int,
                );
                assert forall|i: int, j: int|
                    0 <= i <= j < self.masks().len() implies #[trigger] market_le(
                    self.masks()[i],
                    self.masks()[j],
                ) by {
                    assert(market_le(masks0[i], masks0[j]));
                }
                assert forall|oid: u64| has_market_id(self.masks(), oid) implies has_market_id(
                    masks0,
                    oid,
                ) by {
                    let j = choose|j: int| 0 <= j < self.masks().len() && self.masks()[j].id == oid;
                    assert(masks0[j].id == oid);
                }
            }
        } else {
            proof {
                assert(self.masks() == masks0.drop_last());
                assert forall|oid: u64| has_market_id(self.masks(), oid) implies has_market_id(
                    masks0,
                    oid,
                ) by {
                    let j = choose|j: int| 0 <= j < self.masks().len() && self.masks()[j].id == oid;
                    assert(masks0[j].id == oid);
                }
            }
        }
        proof {
            assert(has_market_id(mbids0, mb.id)) by {
                assert(mbids0[mbids0.len() - 1].id == mb.id);
            }
            assert(has_market_id(masks0, ma.id)) by {
                assert(masks0[masks0.len() - 1].id == ma.id);
            }
        }
        Option::Some(t)
    }
}

} // verus!

verus! {

/// A well-formed limit queue has a non-negative total size.
pub proof fn lemma_limit_size_sum_nonneg(s: Seq<LimitOrderData>)
    requires
        limit_entries_wf(s),
    ensures
        limit_size_sum(s) >= 0,
{
    let f = |o: LimitOrderData| o.size as int;
    assert forall|i: int| 0 <= i < s.len() implies f(#[trigger] s[i]) >= 0 by {
        assert(limit_entry_wf(s[i]));
    }
    lemma_sum_by_nonneg(s, f);
}

/// A well-formed market queue has a non-negative total size.
pub proof fn lemma_market_size_sum_nonneg(s: Seq<MarketOrderData>)
    requires
        market_entries_wf(s),
    ensures
        market_size_sum(s) >= 0,
{
    let f = |o: MarketOrderData| o.size as int;
    assert forall|i: int| 0 <= i < s.len() implies f(#[trigger] s[i]) >= 0 by {
        assert(market_entry_wf(s[i]));
    }
    lemma_sum_by_nonneg(s, f);
}

/// A well-formed limit queue has a non-negative total notional value.
pub proof fn lemma_notional_sum_nonneg(s: Seq<LimitOrderData>)
    requires
        limit_entries_wf(s),
    ensures
        notional_sum(s) >= 0,
{
    let f = |o: LimitOrderData| limit_notional(o);
    assert forall|i: int| 0 <= i < s.len() implies f(#[trigger] s[i]) >= 0 by {
        assert(limit_entry_wf(s[i]));
        assert(s[i].price.as_int * s[i].size >= 0) by (nonlinear_arith)
            requires
                s[i].price.as_int > 0,
                s[i].size > 0,
        ;
    }
    lemma_sum_by_nonneg(s, f);
}

impl OrderBook {
    /// Phase C: drains limit-versus-limit matches while the best bid's
    /// price reaches the best ask's, leaving a book with no price cross.
    /// On a book already free of a cross it does nothing, so a second
    /// invocation right after produces no further transactions.
    pub fn match_all_limit(&mut self) -> (r: Vec<Transaction>)
        requires
            old(self).wf(),
        ensures
            final(self).wf(),
            final(self).mbids() == old(self).mbids(),
            final(self).masks() == old(self).masks(),
            final(self).next_id() == old(self).next_id(),
            final(self).now() == old(self).now(),
            !limit_cross(final(self).bids(), final(self).asks()),
            !limit_cross(old(self).bids(), old(self).asks()) ==> *final(self) == *old(self)
                && r@.len() == 0,
            r@ == spec_match_limit_list(old(self).bids(), old(self).asks()),
            limit_cross(old(self).bids(), old(self).asks()) ==> r@.len() >= 1,
            transactions_wf(r@),
            forall|i: int|
                0 <= i < r@.len() ==> (#[trigger] r@[i]).bid_loss.as_int <= MAX_ORDER_PRICE as int
                    * MAX_ORDER_SIZE as int,
            notional_sum(final(self).bids()) + tx_loss_sum(r@) == notional_sum(old(self).bids()),
            notional_sum(final(self).asks()) + tx_gain_sum(r@) == notional_sum(old(self).asks()),
            limit_size_sum(final(self).bids()) + tx_size_sum(r@) == limit_size_sum(
                old(self).bids(),
            ),
            limit_size_sum(final(self).asks()) + tx_size_sum(r@) == limit_size_sum(
                old(self).asks(),
            ),
            forall|i: int|
                0 <= i < r@.len() ==> has_limit_id(old(self).bids(), (#[trigger] r@[i]).bid_id)
                    && has_limit_id(old(self).asks(), r@[i].ask_id),
            forall|oid: u64|
                has_limit_id(final(self).bids(), oid) ==> has_limit_id(old(self).bids(), oid),
            forall|oid: u64|
                has_limit_id(final(self).asks(), oid) ==> has_limit_id(old(self).asks(), oid),
    {
        let mut transactions: Vec<Transaction> = Vec::new();
        let ghost book0 = *self;
        let ghost bids0 = self.bids();
        let ghost asks0 = self.asks();
        proof {
            lemma_limit_size_sum_nonneg(bids0);
            lemma_limit_size_sum_nonneg(asks0);
            assert(spec_match_limit_list(bids0, asks0) =~= Seq::<Transaction>::empty()
                + spec_match_limit_list(bids0, asks0));
        }
        let mut done = false;
        while !done
            invariant
                self.wf(),
                self.mbids() == book0.mbids(),
                self.masks() == book0.masks(),
                self.next_id() == book0.next_id(),
                self.now() == book0.now(),
                done ==> !limit_cross(self.bids(), self.asks()),
                !limit_cross(bids0, asks0) ==> *self == book0 && transactions@.len() == 0,
                bids0 == book0.bids() && asks0 == book0.asks(),
                spec_match_limit_list(bids0, asks0) == transactions@ + spec_match_limit_list(
                    self.bids(),
                    self.asks(),
                ),
                transactions_wf(transactions@),
                forall|i: int|
                    0 <= i < transactions@.len() ==> (#[trigger] transactions@[i]).bid_loss.as_int
                        <= MAX_ORDER_PRICE as int * MAX_ORDER_SIZE as int,
                notional_sum(self.bids()) + tx_loss_sum(transactions@) == notional_sum(bids0),
                notional_sum(self.asks()) + tx_gain_sum(transactions@) == notional_sum(asks0),
                limit_size_sum(self.bids()) + tx_size_sum(transactions@) == limit_size_sum(bids0),
                limit_size_sum(self.asks()) + tx_size_sum(transactions@) == limit_size_sum(asks0),
                limit_size_sum(self.bids()) >= 0,
                limit_size_sum(self.asks()) >= 0,
                forall|i: int|
                    0 <= i < transactions@.len() ==> has_limit_id(
                        bids0,
                        (#[trigger] transactions@[i]).bid_id,
                    ) && has_limit_id(asks0, transactions@[i].ask_id),
                forall|oid: u64| has_limit_id(self.bids(), oid) ==> has_limit_id(bids0, oid),
                forall|oid: u64| has_limit_id(self.asks(), oid) ==> has_limit_id(asks0, oid),
            decreases limit_size_sum(self.bids()) + limit_size_sum(self.asks()) + (if done {
                0int
            } else {
                1int
            }),
        {
            let ghost pre = *self;
            let ghost pre_txs = transactions@;
            match self.match_limit_orders() {
                Option::Some(t) => {
                    transactions.push(t);
                    proof {
                        lemma_sum_by_push(pre_txs, t, |t: Transaction| t.bid_loss.as_int as int);
                        lemma_sum_by_push(pre_txs, t, |t: Transaction| t.ask_gain.as_int as int);
                        lemma_sum_by_push(pre_txs, t, |t: Transaction| t.size as int);
                        lemma_limit_size_sum_nonneg(self.bids());
                        lemma_limit_size_sum_nonneg(self.asks());
                        assert(t == spec_limit_match(pre.bids(), pre.asks()));
                        assert(self.bids() == spec_limit_bids_after(pre.bids(), pre.asks()));
                        assert(self.asks() == spec_limit_asks_after(pre.bids(), pre.asks()));
                        assert(spec_match_limit_list(pre.bids(), pre.asks()) == seq![t]
                            + spec_match_limit_list(self.bids(), self.asks()));
                        assert(transactions@ + spec_match_limit_list(self.bids(), self.asks())
                            =~= pre_txs + (seq![t] + spec_match_limit_list(
                            self.bids(),
                            self.asks(),
                        )));
                        assert(pre_txs + spec_match_limit_list(pre.bids(), pre.asks())
                            =~= pre_txs + (seq![t] + spec_match_limit_list(
                            self.bids(),
                            self.asks(),
                        )));
                    }
                },
                Option::None => {
                    done = true;
                },
            }
        }
        proof {
            assert(transactions@ =~= transactions@ + spec_match_limit_list(
                self.bids(),
                self.asks(),
            ));
            if limit_cross(bids0, asks0) {
                lemma_crossed_book_trades(bids0, asks0);
            }
        }
        transactions
    }
}

} // verus!

verus! {

/// A well-formed limit queue with zero total size holds no orders.
pub proof fn lemma_limit_empty_of_zero(s: Seq<LimitOrderData>)
    requires
        limit_entries_wf(s),
        limit_size_sum(s) == 0,
    ensures
        s.len() == 0,
{
    if s.len() > 0 {
        let f = |o: LimitOrderData| o.size as int;
        assert forall|i: int| 0 <= i < s.len() implies f(#[trigger] s[i]) >= 0 by {
            assert(limit_entry_wf(s[i]));
        }
        lemma_sum_by_element_bound(s, 0, f);
        assert(limit_entry_wf(s[0]));
    }
}

/// A well-formed market queue with zero total size holds no orders.
pub proof fn lemma_market_empty_of_zero(s: Seq<MarketOrderData>)
    requires
        market_entries_wf(s),
        market_size_sum(s) == 0,
    ensures
        s.len() == 0,
{
    if s.len() > 0 {
        let f = |o: MarketOrderData| o.size as int;
        assert forall|i: int| 0 <= i < s.len() implies f(#[trigger] s[i]) >= 0 by {
            assert(market_entry_wf(s[i]));
        }
        lemma_sum_by_element_bound(s, 0, f);
        assert(market_entry_wf(s[0]));
    }
}

/// The price used by the market-versus-market phase: the given fallback,
/// or zero when there is none (and the phase does not run).
pub open spec fn fallback_val(p: Option<Amount>) -> int {
    match p {
        Option::Some(a) => a.as_int as int,
        Option::None => 0,
    }
}

impl OrderBook {
    /// Phases A and B: first market asks against limit bids, then market
    /// bids against limit asks (the limit side pricing both), then, when a
    /// fallback price is given, market bids against market asks at that
    /// price.  Every transaction moves the same money on both sides, so
    /// the house difference is zero throughout.
    pub fn match_all_market(&mut self, default_price: Option<Amount>) -> (r: Vec<Transaction>)
        requires
            old(self).wf(),
            match default_price {
                Option::Some(p) => 0 <= p.as_int <= MAX_FALLBACK_PRICE,
                Option::None => true,
            },
        ensures
            final(self).wf(),
            final(self).next_id() == old(self).next_id(),
            final(self).now() == old(self).now(),
            transactions_wf(r@),
            forall|i: int|
                0 <= i < r@.len() ==> (#[trigger] r@[i]).ask_gain == r@[i].bid_loss
                    && r@[i].diff.as_int == 0,
            forall|i: int|
                0 <= i < r@.len() ==> (#[trigger] r@[i]).bid_loss.as_int <= MAX_FALLBACK_PRICE as int
                    * MAX_ORDER_SIZE as int,
            default_price is None ==> forall|i: int|
                0 <= i < r@.len() ==> (#[trigger] r@[i]).bid_loss.as_int <= MAX_ORDER_PRICE as int
                    * MAX_ORDER_SIZE as int,
            market_size_sum(final(self).masks()) + limit_size_sum(final(self).asks()) + tx_size_sum(
                r@,
            ) == market_size_sum(old(self).masks()) + limit_size_sum(old(self).asks()),
            market_size_sum(final(self).mbids()) + limit_size_sum(final(self).bids()) + tx_size_sum(
                r@,
            ) == market_size_sum(old(self).mbids()) + limit_size_sum(old(self).bids()),
            notional_sum(final(self).bids()) + notional_sum(final(self).asks()) + tx_loss_sum(r@)
                <= notional_sum(old(self).bids()) + notional_sum(old(self).asks()) + fallback_val(
                default_price,
            ) * market_size_sum(old(self).masks()),
            final(self).masks().len() == 0 || final(self).bids().len() == 0,
            final(self).mbids().len() == 0 || final(self).asks().len() == 0,
            default_price is Some ==> final(self).mbids().len() == 0 || final(self).masks().len()
                == 0,
            market_size_sum(old(self).masks()) == limit_size_sum(old(self).bids())
                && market_size_sum(old(self).mbids()) == limit_size_sum(old(self).asks())
                ==> final(self).bids().len() == 0 && final(self).asks().len() == 0
                && final(self).mbids().len() == 0
                && final(self).masks().len() == 0,
            forall|i: int|
                0 <= i < r@.len() ==> (has_limit_id(old(self).bids(), (#[trigger] r@[i]).bid_id)
                    || has_market_id(old(self).mbids(), r@[i].bid_id)) && (has_limit_id(
                    old(self).asks(),
                    r@[i].ask_id,
                ) || has_market_id(old(self).masks(), r@[i].ask_id)),
            forall|oid: u64|
                has_limit_id(final(self).bids(), oid) ==> has_limit_id(old(self).bids(), oid),
            forall|oid: u64|
                has_limit_id(final(self).asks(), oid) ==> has_limit_id(old(self).asks(), oid),
            forall|oid: u64|
                has_market_id(final(self).mbids(), oid) ==> has_market_id(old(self).mbids(), oid),
            forall|oid: u64|
                has_market_id(final(self).masks(), oid) ==> has_market_id(old(self).masks(), oid),
            ({
                let a1 = spec_match_market_limit(old(self).masks(), old(self).bids(), true);
                let a2 = spec_match_market_limit(old(self).mbids(), old(self).asks(), false);
                &&& final(self).bids() == a1.limit_orders
                &&& final(self).asks() == a2.limit_orders
                &&& match default_price {
                    Option::Some(p) => {
                        let fb = spec_match_fallback(a2.market_orders, a1.market_orders, p);
                        &&& r@ == a1.transactions + a2.transactions + fb.transactions
                        &&& final(self).mbids() == fb.market_bids
                        &&& final(self).masks() == fb.market_asks
                    },
                    Option::None => {
                        &&& r@ == a1.transactions + a2.transactions
                        &&& final(self).mbids() == a2.market_orders
                        &&& final(self).masks() == a1.market_orders
                    },
                }
            }),
    {
        let mut transactions: Vec<Transaction> = Vec::new();
        let ghost book0 = *self;
        proof {
            lemma_limit_size_sum_nonneg(book0.bids());
            lemma_limit_size_sum_nonneg(book0.asks());
            lemma_market_size_sum_nonneg(book0.mbids());
            lemma_market_size_sum_nonneg(book0.masks());
            assert(spec_match_market_limit(book0.masks(), book0.bids(), true).transactions
                =~= Seq::<Transaction>::empty() + spec_match_market_limit(
                book0.masks(),
                book0.bids(),
                true,
            ).transactions);
        }
        let mut done = false;
        while !done
            invariant
                self.wf(),
                self.mbids() == book0.mbids(),
                self.asks() == book0.asks(),
                ({
                    let full = spec_match_market_limit(book0.masks(), book0.bids(), true);
                    let cur = spec_match_market_limit(self.masks(), self.bids(), true);
                    &&& full.transactions == transactions@ + cur.transactions
                    &&& full.market_orders == cur.market_orders
                    &&& full.limit_orders == cur.limit_orders
                }),
                self.next_id() == book0.next_id(),
                self.now() == book0.now(),
                done ==> self.masks().len() == 0 || self.bids().len() == 0,
                transactions_wf(transactions@),
                forall|i: int|
                    0 <= i < transactions@.len() ==> (#[trigger] transactions@[i]).ask_gain
                        == transactions@[i].bid_loss && transactions@[i].diff.as_int == 0,
                forall|i: int|
                    0 <= i < transactions@.len() ==> (#[trigger] transactions@[i]).bid_loss.as_int
                        <= MAX_ORDER_PRICE as int * MAX_ORDER_SIZE as int,
                market_size_sum(self.masks()) + tx_size_sum(transactions@) == market_size_sum(
                    book0.masks(),
                ),
                limit_size_sum(self.bids()) + tx_size_sum(transactions@) == limit_size_sum(
                    book0.bids(),
                ),
                notional_sum(self.bids()) + tx_loss_sum(transactions@) == notional_sum(
                    book0.bids(),
                ),
                market_size_sum(self.masks()) >= 0,
                limit_size_sum(self.bids()) >= 0,
                forall|i: int|
                    0 <= i < transactions@.len() ==> has_limit_id(
                        book0.bids(),
                        (#[trigger] transactions@[i]).bid_id,
                    ) && has_market_id(book0.masks(), transactions@[i].ask_id),
                forall|oid: u64| has_limit_id(self.bids(), oid) ==> has_limit_id(book0.bids(), oid),
                forall|oid: u64|
                    has_market_id(self.masks(), oid) ==> has_market_id(book0.masks(), oid),
            decreases market_size_sum(self.masks()) + limit_size_sum(self.bids()) + (if done {
                0int
            } else {
                1int
            }),
        {
            let ghost pre_txs = transactions@;
            let ghost pre_book = *self;
            match self.match_ask_market_order() {
                Option::Some(t) => {
                    transactions.push(t);
                    proof {
                        lemma_sum_by_push(pre_txs, t, |t: Transaction| t.bid_loss.as_int as int);
                        lemma_sum_by_push(pre_txs, t, |t: Transaction| t.ask_gain.as_int as int);
                        lemma_sum_by_push(pre_txs, t, |t: Transaction| t.size as int);
                        lemma_limit_size_sum_nonneg(self.bids());
                        lemma_market_size_sum_nonneg(self.masks());
                        let step = spec_match_market_limit(pre_book.masks(), pre_book.bids(), true);
                        let cur = spec_match_market_limit(self.masks(), self.bids(), true);
                        assert(step.transactions == seq![t] + cur.transactions);
                        assert(transactions@ + cur.transactions =~= pre_txs + (seq![t]
                            + cur.transactions));
                        assert(pre_txs + step.transactions =~= pre_txs + (seq![t]
                            + cur.transactions));
                    }
                },
                Option::None => {
                    done = true;
                },
            }
        }
        let ghost mid1 = *self;
        let ghost txs1 = transactions@;
        proof {
            assert(spec_match_market_limit(book0.mbids(), book0.asks(), false).transactions
                =~= transactions@.subrange(txs1.len() as int, transactions@.len() as int)
                + spec_match_market_limit(book0.mbids(), book0.asks(), false).transactions);
        }
        let mut done2 = false;
        while !done2
            invariant
                self.wf(),
                self.masks() == mid1.masks(),
                self.bids() == mid1.bids(),
                ({
                    let full = spec_match_market_limit(book0.mbids(), book0.asks(), false);
                    let cur = spec_match_market_limit(self.mbids(), self.asks(), false);
                    &&& full.transactions == transactions@.subrange(
                        txs1.len() as int,
                        transactions@.len() as int,
                    ) + cur.transactions
                    &&& full.market_orders == cur.market_orders
                    &&& full.limit_orders == cur.limit_orders
                }),
                self.next_id() == mid1.next_id(),
                self.now() == mid1.now(),
                mid1.mbids() == book0.mbids(),
                mid1.asks() == book0.asks(),
                done2 ==> self.mbids().len() == 0 || self.asks().len() == 0,
                transactions@.len() >= txs1.len(),
                forall|i: int| 0 <= i < txs1.len() ==> transactions@[i] == txs1[i],
                transactions_wf(transactions@),
                forall|i: int|
                    0 <= i < transactions@.len() ==> (#[trigger] transactions@[i]).ask_gain
                        == transactions@[i].bid_loss && transactions@[i].diff.as_int == 0,
                forall|i: int|
                    0 <= i < transactions@.len() ==> (#[trigger] transactions@[i]).bid_loss.as_int
                        <= MAX_ORDER_PRICE as int * MAX_ORDER_SIZE as int,
                market_size_sum(self.mbids()) + tx_size_sum(transactions@) == market_size_sum(
                    book0.mbids(),
                ) + tx_size_sum(txs1),
                limit_size_sum(self.asks()) + tx_size_sum(transactions@) == limit_size_sum(
                    book0.asks(),
                ) + tx_size_sum(txs1),
                notional_sum(self.asks()) + tx_loss_sum(transactions@) == notional_sum(
                    book0.asks(),
                ) + tx_loss_sum(txs1),
                market_size_sum(self.mbids()) >= 0,
                limit_size_sum(self.asks()) >= 0,
                forall|i: int|
                    txs1.len() <= i < transactions@.len() ==> has_market_id(
                        book0.mbids(),
                        (#[trigger] transactions@[i]).bid_id,
                    ) && has_limit_id(book0.asks(), transactions@[i].ask_id),
                forall|oid: u64| has_limit_id(self.asks(), oid) ==> has_limit_id(book0.asks(), oid),
                forall|oid: u64|
                    has_market_id(self.mbids(), oid) ==> has_market_id(book0.mbids(), oid),
            decreases market_size_sum(self.mbids()) + limit_size_sum(self.asks()) + (if done2 {
                0int
            } else {
                1int
            }),
        {
            let ghost pre_txs = transactions@;
            let ghost pre_book = *self;
            match self.match_bid_market_order() {
                Option::Some(t) => {
                    transactions.push(t);
                    proof {
                        lemma_sum_by_push(pre_txs, t, |t: Transaction| t.bid_loss.as_int as int);
                        lemma_sum_by_push(pre_txs, t, |t: Transaction| t.ask_gain.as_int as int);
                        lemma_sum_by_push(pre_txs, t, |t: Transaction| t.size as int);
                        lemma_limit_size_sum_nonneg(self.asks());
                        lemma_market_size_sum_nonneg(self.mbids());
                        let step = spec_match_market_limit(
                            pre_book.mbids(),
                            pre_book.asks(),
                            false,
                        );
                        let cur = spec_match_market_limit(self.mbids(), self.asks(), false);
                        assert(step.transactions == seq![t] + cur.transactions);
                        assert(transactions@.subrange(txs1.len() as int, transactions@.len() as int)
                            =~= pre_txs.subrange(txs1.len() as int, pre_txs.len() as int).push(t));
                        assert(pre_txs.subrange(txs1.len() as int, pre_txs.len() as int).push(t)
                            + cur.transactions =~= pre_txs.subrange(
                            txs1.len() as int,
                            pre_txs.len() as int,
                        ) + (seq![t] + cur.transactions));
                        assert(pre_txs.subrange(txs1.len() as int, pre_txs.len() as int)
                            + step.transactions =~= pre_txs.subrange(
                            txs1.len() as int,
                            pre_txs.len() as int,
                        ) + (seq![t] + cur.transactions));
                    }
                },
                Option::None => {
                    done2 = true;
                },
            }
        }
        let ghost mid2 = *self;
        let ghost txs2 = transactions@;
        proof {
            lemma_market_size_sum_nonneg(mid2.mbids());
        }
        if let Option::Some(p) = default_price {
            proof {
                assert(spec_match_fallback(mid2.mbids(), mid2.masks(), p).transactions
                    =~= transactions@.subrange(txs2.len() as int, transactions@.len() as int)
                    + spec_match_fallback(mid2.mbids(), mid2.masks(), p).transactions);
            }
            let mut done3 = false;
            while !done3
                invariant
                    self.wf(),
                    0 <= p.as_int <= MAX_FALLBACK_PRICE,
                    self.bids() == mid2.bids(),
                    self.asks() == mid2.asks(),
                    ({
                        let full = spec_match_fallback(mid2.mbids(), mid2.masks(), p);
                        let cur = spec_match_fallback(self.mbids(), self.masks(), p);
                        &&& full.transactions == transactions@.subrange(
                            txs2.len() as int,
                            transactions@.len() as int,
                        ) + cur.transactions
                        &&& full.market_bids == cur.market_bids
                        &&& full.market_asks == cur.market_asks
                    }),
                    self.next_id() == mid2.next_id(),
                    self.now() == mid2.now(),
                    done3 ==> self.mbids().len() == 0 || self.masks().len() == 0,
                    mid2.masks().len() == 0 || mid2.bids().len() == 0,
                    mid2.mbids().len() == 0 || mid2.asks().len() == 0,
                    self.masks().len() <= mid2.masks().len(),
                    self.mbids().len() <= mid2.mbids().len(),
                    transactions@.len() >= txs2.len(),
                    forall|i: int| 0 <= i < txs2.len() ==> transactions@[i] == txs2[i],
                    transactions_wf(transactions@),
                    forall|i: int|
                        0 <= i < transactions@.len() ==> (#[trigger] transactions@[i]).ask_gain
                            == transactions@[i].bid_loss && transactions@[i].diff.as_int == 0,
                    forall|i: int|
                        0 <= i < transactions@.len() ==> (#[trigger] transactions@[i]).bid_loss.as_int
                            <= MAX_FALLBACK_PRICE as int * MAX_ORDER_SIZE as int,
                    market_size_sum(self.masks()) + tx_size_sum(transactions@) == market_size_sum(
                        mid2.masks(),
                    ) + tx_size_sum(txs2),
                    market_size_sum(self.mbids()) + tx_size_sum(transactions@) == market_size_sum(
                        mid2.mbids(),
                    ) + tx_size_sum(txs2),
                    tx_loss_sum(transactions@) == tx_loss_sum(txs2) + p.as_int * (market_size_sum(
                        mid2.masks(),
                    ) - market_size_sum(self.masks())),
                    market_size_sum(self.mbids()) >= 0,
                    market_size_sum(self.masks()) >= 0,
                    forall|i: int|
                        txs2.len() <= i < transactions@.len() ==> has_market_id(
                            book0.mbids(),
                            (#[trigger] transactions@[i]).bid_id,
                        ) && has_market_id(book0.masks(), transactions@[i].ask_id),
                    forall|oid: u64|
                        has_market_id(self.mbids(), oid) ==> has_market_id(book0.mbids(), oid),
                    forall|oid: u64|
                        has_market_id(self.masks(), oid) ==> has_market_id(book0.masks(), oid),
                decreases market_size_sum(self.mbids()) + market_size_sum(self.masks()) + (
                if done3 {
                    0int
                } else {
                    1int
                }),
            {
                let ghost pre_txs = transactions@;
                let ghost pre_mb = market_size_sum(self.masks());
                let ghost pre_book = *self;
                match self.match_market_orders(p) {
                    Option::Some(t) => {
                        transactions.push(t);
                        proof {
                            lemma_sum_by_push(pre_txs, t, |t: Transaction| t.bid_loss.as_int as int);
                            lemma_sum_by_push(pre_txs, t, |t: Transaction| t.ask_gain.as_int as int);
                            lemma_sum_by_push(pre_txs, t, |t: Transaction| t.size as int);
                            lemma_market_size_sum_nonneg(self.mbids());
                            lemma_market_size_sum_nonneg(self.masks());
                            let step = spec_match_fallback(pre_book.mbids(), pre_book.masks(), p);
                            let cur = spec_match_fallback(self.mbids(), self.masks(), p);
                            assert(step.transactions == seq![t] + cur.transactions);
                            assert(transactions@.subrange(
                                txs2.len() as int,
                                transactions@.len() as int,
                            ) =~= pre_txs.subrange(txs2.len() as int, pre_txs.len() as int).push(
                                t,
                            ));
                            assert(pre_txs.subrange(txs2.len() as int, pre_txs.len() as int).push(
                                t,
                            ) + cur.transactions =~= pre_txs.subrange(
                                txs2.len() as int,
                                pre_txs.len() as int,
                            ) + (seq![t] + cur.transactions));
                            assert(pre_txs.subrange(txs2.len() as int, pre_txs.len() as int)
                                + step.transactions =~= pre_txs.subrange(
                                txs2.len() as int,
                                pre_txs.len() as int,
                            ) + (seq![t] + cur.transactions));
                            assert(p.as_int * (market_size_sum(mid2.masks()) - pre_mb) + p.as_int
                                * (t.size as int) == p.as_int * (market_size_sum(mid2.masks())
                                - market_size_sum(self.masks()))) by (nonlinear_arith)
                                requires
                                    market_size_sum(self.masks()) == pre_mb - t.size,
                            ;
                        }
                    },
                    Option::None => {
                        done3 = true;
                    },
                }
            }
            proof {
                assert(p.as_int * (market_size_sum(mid2.masks()) - market_size_sum(self.masks()))
                    <= p.as_int * market_size_sum(mid2.masks())) by (nonlinear_arith)
                    requires
                        p.as_int >= 0,
                        market_size_sum(self.masks()) >= 0,
                ;
                assert(p.as_int * market_size_sum(mid2.masks()) <= p.as_int * market_size_sum(
                    book0.masks(),
                )) by (nonlinear_arith)
                    requires
                        p.as_int >= 0,
                        market_size_sum(mid2.masks()) <= market_size_sum(book0.masks()),
                ;
                lemma_tx_sums_nonneg(txs2);
            }
        }
        proof {
            lemma_notional_sum_nonneg(self.bids());
            lemma_notional_sum_nonneg(self.asks());
            if market_size_sum(book0.masks()) == limit_size_sum(book0.bids()) && market_size_sum(
                book0.mbids(),
            ) == limit_size_sum(book0.asks()) {
                if mid1.masks().len() == 0 {
                    lemma_limit_empty_of_zero(mid1.bids());
                } else {
                    lemma_market_empty_of_zero(mid1.masks());
                }
                if mid2.mbids().len() == 0 {
                    lemma_limit_empty_of_zero(mid2.asks());
                } else {
                    lemma_market_empty_of_zero(mid2.mbids());
                }
            }
            assert forall|i: int| 0 <= i < transactions@.len() implies (has_limit_id(
                book0.bids(),
                (#[trigger] transactions@[i]).bid_id,
            ) || has_market_id(book0.mbids(), transactions@[i].bid_id)) && (has_limit_id(
                book0.asks(),
                transactions@[i].ask_id,
            ) || has_market_id(book0.masks(), transactions@[i].ask_id)) by {
                if i < txs1.len() {
                    assert(transactions@[i] == txs2[i]);
                    assert(txs2[i] == txs1[i]);
                } else if i < txs2.len() {
                    assert(transactions@[i] == txs2[i]);
                }
            }
            // the whole pass is the three phase folds run in order
            let a1 = spec_match_market_limit(book0.masks(), book0.bids(), true);
            let a2 = spec_match_market_limit(book0.mbids(), book0.asks(), false);
            assert(a1.transactions =~= txs1);
            assert(a1.market_orders == mid1.masks() && a1.limit_orders == mid1.bids());
            assert(a2.transactions =~= txs2.subrange(txs1.len() as int, txs2.len() as int));
            assert(a2.market_orders == mid2.mbids() && a2.limit_orders == mid2.asks());
            assert(txs2 =~= txs1 + txs2.subrange(txs1.len() as int, txs2.len() as int));
            match default_price {
                Option::Some(p) => {
                    let fb = spec_match_fallback(a2.market_orders, a1.market_orders, p);
                    assert(mid2.masks() == mid1.masks());
                    assert(fb.transactions =~= transactions@.subrange(
                        txs2.len() as int,
                        transactions@.len() as int,
                    ));
                    assert(fb.market_bids == self.mbids() && fb.market_asks == self.masks());
                    assert(transactions@ =~= txs2 + transactions@.subrange(
                        txs2.len() as int,
                        transactions@.len() as int,
                    ));
                    assert(transactions@ =~= a1.transactions + a2.transactions + fb.transactions);
                },
                Option::None => {
                    assert(transactions@ == txs2);
                    assert(transactions@ =~= a1.transactions + a2.transactions);
                },
            }
        }
        transactions
    }
}

/// Size and money sums of emitted transactions are non-negative.
pub proof fn lemma_tx_sums_nonneg(s: Seq<Transaction>)
    requires
        transactions_wf(s),
    ensures
        tx_size_sum(s) >= 0,
        tx_loss_sum(s) >= 0,
{
    let f = |t: Transaction| t.size as int;
    let g = |t: Transaction| t.bid_loss.as_int as int;
    assert forall|i: int| 0 <= i < s.len() implies f(#[trigger] s[i]) >= 0 by {
        assert(s[i].wf());
    }
    assert forall|i: int| 0 <= i < s.len() implies g(#[trigger] s[i]) >= 0 by {
        assert(s[i].wf());
    }
    lemma_sum_by_nonneg(s, f);
    lemma_sum_by_nonneg(s, g);
}

} // verus!

verus! {

/// The full order records of a limit queue, on the given side.
pub open spec fn limit_orders_on(s: Seq<LimitOrderData>, side: OrderSide) -> Seq<Order> {
    s.map_values(|o: LimitOrderData| o.spec_to_order(side))
}

/// The full order records of a market queue, on the given side.
pub open spec fn market_orders_on(s: Seq<MarketOrderData>, side: OrderSide) -> Seq<Order> {
    s.map_values(|o: MarketOrderData| o.spec_to_order(side))
}

impl OrderBook {
    /// Every order resident in the book: limit asks, then limit bids, then
    /// market asks, then market bids, each queue in its priority order.
    pub fn all_orders(&self) -> (r: Vec<Order>)
        ensures
            r@ == limit_orders_on(self.asks(), OrderSide::Ask) + limit_orders_on(
                self.bids(),
                OrderSide::Bid,
            ) + market_orders_on(self.masks(), OrderSide::Ask) + market_orders_on(
                self.mbids(),
                OrderSide::Bid,
            ),
    {
        let mut r: Vec<Order> = Vec::new();
        let mut i: usize = 0;
        while i < self.limit_asks.len()
            invariant
                i <= self.asks().len(),
                r@.len() == i,
                forall|j: int|
                    0 <= j < i ==> r@[j] == self.asks()[j].spec_to_order(OrderSide::Ask),
            decreases self.asks().len() - i,
        {
            r.push(self.limit_asks[i].to_order(OrderSide::Ask));
            i = i + 1;
        }
        let na = self.limit_asks.len();
        let mut i: usize = 0;
        while i < self.limit_bids.len()
            invariant
                na == self.asks().len(),
                i <= self.bids().len(),
                r@.len() == na + i,
                forall|j: int|
                    0 <= j < na ==> r@[j] == self.asks()[j].spec_to_order(OrderSide::Ask),
                forall|j: int|
                    0 <= j < i ==> r@[na + j] == self.bids()[j].spec_to_order(OrderSide::Bid),
            decreases self.bids().len() - i,
        {
            r.push(self.limit_bids[i].to_order(OrderSide::Bid));
            i = i + 1;
        }
        let nb = r.len();
        let mut i: usize = 0;
        while i < self.market_asks.len()
            invariant
                na == self.asks().len(),
                nb == na + self.bids().len(),
                i <= self.masks().len(),
                r@.len() == nb + i,
                forall|j: int|
                    0 <= j < na ==> r@[j] == self.asks()[j].spec_to_order(OrderSide::Ask),
                forall|j: int|
                    0 <= j < nb - na ==> r@[na + j] == self.bids()[j].spec_to_order(OrderSide::Bid),
                forall|j: int|
                    0 <= j < i ==> r@[nb + j] == self.masks()[j].spec_to_order(OrderSide::Ask),
            decreases self.masks().len() - i,
        {
            r.push(self.market_asks[i].to_order(OrderSide::Ask));
            i = i + 1;
        }
        let nc = r.len();
        let mut i: usize = 0;
        while i < self.market_bids.len()
            invariant
                na == self.asks().len(),
                nb == na + self.bids().len(),
                nc == nb + self.masks().len(),
                i <= self.mbids().len(),
                r@.len() == nc + i,
                forall|j: int|
                    0 <= j < na ==> r@[j] == self.asks()[j].spec_to_order(OrderSide::Ask),
                forall|j: int|
                    0 <= j < nb - na ==> r@[na + j] == self.bids()[j].spec_to_order(OrderSide::Bid),
                forall|j: int|
                    0 <= j < nc - nb ==> r@[nb + j] == self.masks()[j].spec_to_order(
                        OrderSide::Ask,
                    ),
                forall|j: int|
                    0 <= j < i ==> r@[nc + j] == self.mbids()[j].spec_to_order(OrderSide::Bid),
            decreases self.mbids().len() - i,
        {
            r.push(self.market_bids[i].to_order(OrderSide::Bid));
            i = i + 1;
        }
        proof {
            assert(r@ =~= limit_orders_on(self.asks(), OrderSide::Ask) + limit_orders_on(
                self.bids(),
                OrderSide::Bid,
            ) + market_orders_on(self.masks(), OrderSide::Ask) + market_orders_on(
                self.mbids(),
                OrderSide::Bid,
            ));
        }
        r
    }

    /// The limit-ask queue, worst first, as typed ask orders.
    pub fn limit_asks(&self) -> (r: Vec<AskLimitOrder>)
        ensures
            r@.len() == self.asks().len(),
            forall|i: int| 0 <= i < r@.len() ==> (#[trigger] r@[i]).data == self.asks()[i],
    {
        let mut r: Vec<AskLimitOrder> = Vec::new();
        let mut i: usize = 0;
        while i < self.limit_asks.len()
            invariant
                i <= self.asks().len(),
                r@.len() == i,
                forall|j: int| 0 <= j < i ==> (#[trigger] r@[j]).data == self.asks()[j],
            decreases self.asks().len() - i,
        {
            r.push(AskLimitOrder { data: self.limit_asks[i] });
            i = i + 1;
        }
        r
    }

    /// The limit-bid queue, worst first, as typed bid orders.
    pub fn limit_bids(&self) -> (r: Vec<BidLimitOrder>)
        ensures
            r@.len() == self.bids().len(),
            forall|i: int| 0 <= i < r@.len() ==> (#[trigger] r@[i]).data == self.bids()[i],
    {
        let mut r: Vec<BidLimitOrder> = Vec::new();
        let mut i: usize = 0;
        while i < self.limit_bids.len()
            invariant
                i <= self.bids().len(),
                r@.len() == i,
                forall|j: int| 0 <= j < i ==> (#[trigger] r@[j]).data == self.bids()[j],
            decreases self.bids().len() - i,
        {
            r.push(BidLimitOrder { data: self.limit_bids[i] });
            i = i + 1;
        }
        r
    }

    /// The market-ask queue, oldest last, as typed ask orders.
    pub fn market_asks(&self) -> (r: Vec<AskMarketOrder>)
        ensures
            r@.len() == self.masks().len(),
            forall|i: int| 0 <= i < r@.len() ==> (#[trigger] r@[i]).data == self.masks()[i],
    {
        let mut r: Vec<AskMarketOrder> = Vec::new();
        let mut i: usize = 0;
        while i < self.market_asks.len()
            invariant
                i <= self.masks().len(),
                r@.len() == i,
                forall|j: int| 0 <= j < i ==> (#[trigger] r@[j]).data == self.masks()[j],
            decreases self.masks().len() - i,
        {
            r.push(AskMarketOrder { data: self.market_asks[i] });
            i = i + 1;
        }
        r
    }

    /// The market-bid queue, oldest last, as typed bid orders.
    pub fn market_bids(&self) -> (r: Vec<BidMarketOrder>)
        ensures
            r@.len() == self.mbids().len(),
            forall|i: int| 0 <= i < r@.len() ==> (#[trigger] r@[i]).data == self.mbids()[i],
    {
        let mut r: Vec<BidMarketOrder> = Vec::new();
        let mut i: usize = 0;
        while i < self.market_bids.len()
            invariant
                i <= self.mbids().len(),
                r@.len() == i,
                forall|j: int| 0 <= j < i ==> (#[trigger] r@[j]).data == self.mbids()[j],
            decreases self.mbids().len() - i,
        {
            r.push(BidMarketOrder { data: self.market_bids[i] });
            i = i + 1;
        }
        r
    }

    /// Files a batch of admitted orders, in order: each goes to the queue
    /// its price and side select, and every queue grows by exactly the
    /// batch's contribution to it.
    pub fn add_orders(&mut self, data: Vec<Order>)
        requires
            old(self).wf(),
            forall|i: int| 0 <= i < data@.len() ==> (#[trigger] data@[i]).wf(),
        ensures
            final(self).wf(),
            final(self).next_id() == old(self).next_id(),
            final(self).now() == old(self).now(),
            notional_sum(final(self).bids()) == notional_sum(old(self).bids()) + sum_by(
                data@,
                |o: Order| order_bid_notional(o),
            ),
            notional_sum(final(self).asks()) == notional_sum(old(self).asks()) + sum_by(
                data@,
                |o: Order| order_ask_notional(o),
            ),
            limit_size_sum(final(self).bids()) == limit_size_sum(old(self).bids()) + sum_by(
                data@,
                |o: Order| order_bid_size(o),
            ),
            limit_size_sum(final(self).asks()) == limit_size_sum(old(self).asks()) + sum_by(
                data@,
                |o: Order| order_ask_size(o),
            ),
            market_size_sum(final(self).mbids()) == market_size_sum(old(self).mbids()) + sum_by(
                data@,
                |o: Order| order_mbid_size(o),
            ),
            market_size_sum(final(self).masks()) == market_size_sum(old(self).masks()) + sum_by(
                data@,
                |o: Order| order_mask_size(o),
            ),
            final(self).bids().to_multiset() == old(self).bids().to_multiset().add(
                bid_limit_records(data@),
            ),
            final(self).asks().to_multiset() == old(self).asks().to_multiset().add(
                ask_limit_records(data@),
            ),
            final(self).mbids().to_multiset() == old(self).mbids().to_multiset().add(
                bid_market_records(data@),
            ),
            final(self).masks().to_multiset() == old(self).masks().to_multiset().add(
                ask_market_records(data@),
            ),
            forall|i: int|
                0 <= i < data@.len() ==> {
                    let o = #[trigger] data@[i];
                    match (o.price, o.side) {
                        (Option::Some(_), OrderSide::Bid) => has_limit_id(final(self).bids(), o.id),
                        (Option::Some(_), OrderSide::Ask) => has_limit_id(final(self).asks(), o.id),
                        (Option::None, OrderSide::Bid) => has_market_id(final(self).mbids(), o.id),
                        (Option::None, OrderSide::Ask) => has_market_id(final(self).masks(), o.id),
                    }
                },
    {
        let n = data.len();
        proof {
            assert(data@.subrange(0, 0) =~= Seq::<Order>::empty());
            assert(self.bids().to_multiset() =~= self.bids().to_multiset().add(
                Multiset::empty(),
            ));
            assert(self.asks().to_multiset() =~= self.asks().to_multiset().add(
                Multiset::empty(),
            ));
            assert(self.mbids().to_multiset() =~= self.mbids().to_multiset().add(
                Multiset::empty(),
            ));
            assert(self.masks().to_multiset() =~= self.masks().to_multiset().add(
                Multiset::empty(),
            ));
        }
        let mut i: usize = 0;
        while i < n
            invariant
                self.wf(),
                n == data@.len(),
                i <= n,
                forall|k: int| 0 <= k < data@.len() ==> (#[trigger] data@[k]).wf(),
                self.next_id() == old(self).next_id(),
                self.now() == old(self).now(),
                notional_sum(self.bids()) == notional_sum(old(self).bids()) + sum_by(
                    data@.subrange(0, i as int),
                    |o: Order| order_bid_notional(o),
                ),
                notional_sum(self.asks()) == notional_sum(old(self).asks()) + sum_by(
                    data@.subrange(0, i as int),
                    |o: Order| order_ask_notional(o),
                ),
                limit_size_sum(self.bids()) == limit_size_sum(old(self).bids()) + sum_by(
                    data@.subrange(0, i as int),
                    |o: Order| order_bid_size(o),
                ),
                limit_size_sum(self.asks()) == limit_size_sum(old(self).asks()) + sum_by(
                    data@.subrange(0, i as int),
                    |o: Order| order_ask_size(o),
                ),
                market_size_sum(self.mbids()) == market_size_sum(old(self).mbids()) + sum_by(
                    data@.subrange(0, i as int),
                    |o: Order| order_mbid_size(o),
                ),
                market_size_sum(self.masks()) == market_size_sum(old(self).masks()) + sum_by(
                    data@.subrange(0, i as int),
                    |o: Order| order_mask_size(o),
                ),
                self.bids().to_multiset() == old(self).bids().to_multiset().add(
                    bid_limit_records(data@.subrange(0, i as int)),
                ),
                self.asks().to_multiset() == old(self).asks().to_multiset().add(
                    ask_limit_records(data@.subrange(0, i as int)),
                ),
                self.mbids().to_multiset() == old(self).mbids().to_multiset().add(
                    bid_market_records(data@.subrange(0, i as int)),
                ),
                self.masks().to_multiset() == old(self).masks().to_multiset().add(
                    ask_market_records(data@.subrange(0, i as int)),
                ),
                forall|k: int|
                    0 <= k < i ==> {
                        let o = #[trigger] data@[k];
                        match (o.price, o.side) {
                            (Option::Some(_), OrderSide::Bid) => has_limit_id(self.bids(), o.id),
                            (Option::Some(_), OrderSide::Ask) => has_limit_id(self.asks(), o.id),
                            (Option::None, OrderSide::Bid) => has_market_id(self.mbids(), o.id),
                            (Option::None, OrderSide::Ask) => has_market_id(self.masks(), o.id),
                        }
                    },
            decreases n - i,
        {
            let ghost pre = data@.subrange(0, i as int);
            proof {
                assert(data@.subrange(0, i as int + 1) =~= pre.push(data@[i as int]));
                lemma_sum_by_push(pre, data@[i as int], |o: Order| order_bid_notional(o));
                lemma_sum_by_push(pre, data@[i as int], |o: Order| order_ask_notional(o));
                lemma_sum_by_push(pre, data@[i as int], |o: Order| order_bid_size(o));
                lemma_sum_by_push(pre, data@[i as int], |o: Order| order_ask_size(o));
                lemma_sum_by_push(pre, data@[i as int], |o: Order| order_mbid_size(o));
                lemma_sum_by_push(pre, data@[i as int], |o: Order| order_mask_size(o));
                assert(pre.push(data@[i as int]).drop_last() =~= pre);
                assert(pre.push(data@[i as int]).last() == data@[i as int]);
            }
            let ghost mid_book = *self;
            self.add_order(data[i]);
            proof {
                let o = data@[i as int];
                let ext = pre.push(o);
                match (o.price, o.side) {
                    (Option::Some(_), OrderSide::Bid) => {
                        assert(self.bids().to_multiset() =~= old(self).bids().to_multiset().add(
                            bid_limit_records(ext),
                        ));
                    },
                    (Option::Some(_), OrderSide::Ask) => {
                        assert(self.asks().to_multiset() =~= old(self).asks().to_multiset().add(
                            ask_limit_records(ext),
                        ));
                    },
                    (Option::None, OrderSide::Bid) => {
                        assert(self.mbids().to_multiset() =~= old(self).mbids().to_multiset().add(
                            bid_market_records(ext),
                        ));
                    },
                    (Option::None, OrderSide::Ask) => {
                        assert(self.masks().to_multiset() =~= old(self).masks().to_multiset().add(
                            ask_market_records(ext),
                        ));
                    },
                }
            }
            i = i + 1;
        }
        proof {
            assert(data@.subrange(0, n as int) =~= data@);
        }
    }

    /// A fresh book, with both counters at zero, holding exactly the
    /// given orders.
    pub fn from_orders(data: Vec<Order>) -> (r: Self)
        requires
            forall|i: int| 0 <= i < data@.len() ==> (#[trigger] data@[i]).wf(),
        ensures
            r.wf(),
            r.next_id() == 0,
            r.now() == 0,
            notional_sum(r.bids()) == sum_by(data@, |o: Order| order_bid_notional(o)),
            notional_sum(r.asks()) == sum_by(data@, |o: Order| order_ask_notional(o)),
            limit_size_sum(r.bids()) == sum_by(data@, |o: Order| order_bid_size(o)),
            limit_size_sum(r.asks()) == sum_by(data@, |o: Order| order_ask_size(o)),
            market_size_sum(r.mbids()) == sum_by(data@, |o: Order| order_mbid_size(o)),
            market_size_sum(r.masks()) == sum_by(data@, |o: Order| order_mask_size(o)),
            r.bids().to_multiset() == bid_limit_records(data@),
            r.asks().to_multiset() == ask_limit_records(data@),
            r.mbids().to_multiset() == bid_market_records(data@),
            r.masks().to_multiset() == ask_market_records(data@),
            forall|i: int|
                0 <= i < data@.len() ==> {
                    let o = #[trigger] data@[i];
                    match (o.price, o.side) {
                        (Option::Some(_), OrderSide::Bid) => has_limit_id(r.bids(), o.id),
                        (Option::Some(_), OrderSide::Ask) => has_limit_id(r.asks(), o.id),
                        (Option::None, OrderSide::Bid) => has_market_id(r.mbids(), o.id),
                        (Option::None, OrderSide::Ask) => has_market_id(r.masks(), o.id),
                    }
                },
    {
        let mut b = Self::empty();
        proof {
            broadcast use vstd::seq_lib::group_to_multiset_ensures;

            assert(b.bids().to_multiset() =~= Multiset::<LimitOrderData>::empty());
            assert(b.asks().to_multiset() =~= Multiset::<LimitOrderData>::empty());
            assert(b.mbids().to_multiset() =~= Multiset::<MarketOrderData>::empty());
            assert(b.masks().to_multiset() =~= Multiset::<MarketOrderData>::empty());
        }
        b.add_orders(data);
        proof {
            assert(b.bids().to_multiset() =~= bid_limit_records(data@));
            assert(b.asks().to_multiset() =~= ask_limit_records(data@));
            assert(b.mbids().to_multiset() =~= bid_market_records(data@));
            assert(b.masks().to_multiset() =~= ask_market_records(data@));
        }
        b
    }
}

} // verus!

verus! {

/// No limit queue's notional value exceeds the price cap times its size.
pub proof fn lemma_notional_le_price_cap(s: Seq<LimitOrderData>)
    requires
        limit_entries_wf(s),
    ensures
        notional_sum(s) <= MAX_ORDER_PRICE as int * limit_size_sum(s),
    decreases s.len(),
{
    if s.len() > 0 {
        assert(limit_entries_wf(s.drop_last())) by {
            assert forall|i: int| 0 <= i < s.len() - 1 implies #[trigger] limit_entry_wf(
                s.drop_last()[i],
            ) by {
                assert(limit_entry_wf(s[i]));
            }
        }
        lemma_notional_le_price_cap(s.drop_last());
        assert(limit_entry_wf(s[s.len() - 1]));
        assert(limit_notional(s.last()) <= MAX_ORDER_PRICE as int * s.last().size)
            by (nonlinear_arith)
            requires
                0 < s.last().price.as_int <= MAX_ORDER_PRICE,
                0 < s.last().size,
        ;
        assert(MAX_ORDER_PRICE as int * (limit_size_sum(s.drop_last()) + s.last().size)
            == MAX_ORDER_PRICE as int * limit_size_sum(s.drop_last()) + MAX_ORDER_PRICE as int
            * s.last().size) by (nonlinear_arith);
    }
}

impl OrderBook {
    /// The id the next admitted order will be stamped with.
    pub fn next_order_id(&self) -> (r: u64)
        ensures
            r == self.next_id(),
    {
        self.id
    }
}

} // verus!

verus! {

impl OrderBook {
    /// Running the limit phase twice in a row never yields more than
    /// running it once: the second pass finds the book free of any price
    /// cross and returns no transactions, leaving the book as it was.
    pub fn match_all_limit_twice(&mut self) -> (r: (Vec<Transaction>, Vec<Transaction>))
        requires
            old(self).wf(),
        ensures
            final(self).wf(),
            r.1@.len() == 0,
    {
        let first = self.match_all_limit();
        let second = self.match_all_limit();
        (first, second)
    }
}

} // verus!
