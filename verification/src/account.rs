//! Per-agent balances and the reservation discipline that gates order
//! admission: a limit bid earmarks its full notional against cash, any ask
//! earmarks its size against inventory, and a market bid reserves nothing.

use vstd::prelude::*;
use crate::amount::Amount;
use crate::orders::flat::{data_admissible, Order, OrderData, OrderSide};
use crate::orders::limit::LimitOrder;
use crate::orders::market::MarketOrder;
use crate::sums::{lemma_sum_by_nonneg, lemma_sum_by_push, lemma_sum_by_split, sum_by};

verus! {

/// The inventory an intent would reserve: its size for an ask, nothing
/// for a bid.
pub open spec fn intent_ask_size(d: OrderData) -> int {
    if d.side is Ask {
        d.size as int
    } else {
        0
    }
}

/// The cash an intent would reserve: its notional for a limit bid,
/// nothing for an ask or a market bid.
pub open spec fn intent_bid_notional(d: OrderData) -> int {
    if d.side is Bid {
        match d.price {
            Option::Some(p) => p.as_int * d.size,
            Option::None => 0,
        }
    } else {
        0
    }
}

/// Total inventory a batch of intents would reserve.
pub open spec fn intents_ask_size_sum(s: Seq<OrderData>) -> int {
    sum_by(s, |d: OrderData| intent_ask_size(d))
}

/// Total cash a batch of intents would reserve.
pub open spec fn intents_bid_notional_sum(s: Seq<OrderData>) -> int {
    sum_by(s, |d: OrderData| intent_bid_notional(d))
}

/// An agent's balances: inventory, cash, what of each is currently
/// reserved against in-flight orders, and a debt field kept for future
/// credit extensions (unused by settlement).
#[derive(Copy, Clone, Debug, PartialEq, Eq)]
pub struct Account {
    pub commodity: i64,
    pub money: Amount,
    pub reserved_money: Amount,
    pub reserved_commodity: i64,
    pub dept: Amount,
}

impl Account {
    /// The account invariant at rest: reservations are non-negative and
    /// covered by the balances they earmark.
    pub open spec fn wf(self) -> bool {
        &&& 0 <= self.reserved_money.as_int <= self.money.as_int
        &&& 0 <= self.reserved_commodity <= self.commodity
    }

    /// The account every newly registered agent starts with, as a value.
    pub open spec fn spec_starting_account() -> Account {
        Account {
            commodity: 10,
            money: Amount { as_int: 10 },
            reserved_money: Amount { as_int: 0 },
            reserved_commodity: 0,
            dept: Amount { as_int: 0 },
        }
    }

    /// An account with no balances at all, as a value.
    pub open spec fn spec_empty_account() -> Account {
        Account {
            commodity: 0,
            money: Amount { as_int: 0 },
            reserved_money: Amount { as_int: 0 },
            reserved_commodity: 0,
            dept: Amount { as_int: 0 },
        }
    }

    /// The account every newly registered agent starts with.
    pub fn starting_account() -> (r: Self)
        ensures
            r.commodity == 10,
            r.money.as_int == 10,
            r.reserved_money.as_int == 0,
            r.reserved_commodity == 0,
            r.dept.as_int == 0,
            r == Self::spec_starting_account(),
            r.wf(),
    {
        Account {
            commodity: 10,
            money: Amount { as_int: 10 },
            reserved_money: Amount { as_int: 0 },
            reserved_commodity: 0,
            dept: Amount { as_int: 0 },
        }
    }

    /// Whether this account could reserve the whole batch of intents at
    /// once: enough uncommitted inventory for all the asks and enough
    /// uncommitted cash for all the limit bids.
    pub fn reservable(&self, orders: &Vec<OrderData>) -> (r: bool)
        requires
            self.wf(),
            forall|i: int| 0 <= i < orders@.len() ==> data_admissible(#[trigger] orders@[i]),
        ensures
            r == (self.commodity >= self.reserved_commodity + intents_ask_size_sum(orders@)
                && self.money.as_int >= self.reserved_money.as_int + intents_bid_notional_sum(
                orders@,
            )),
    {
        proof {
            lemma_intent_sums_nonneg(orders@);
        }
        let mut comm: i64 = 0;
        let mut need: i64 = 0;
        let mut i: usize = 0;
        while i < orders.len()
            invariant
                self.wf(),
                forall|k: int| 0 <= k < orders@.len() ==> data_admissible(#[trigger] orders@[k]),
                i <= orders@.len(),
                comm == intents_ask_size_sum(orders@.subrange(0, i as int)),
                need == intents_bid_notional_sum(orders@.subrange(0, i as int)),
                comm >= 0,
                need >= 0,
            decreases orders@.len() - i,
        {
            let d = orders[i];
            let ghost pre = orders@.subrange(0, i as int);
            proof {
                assert(orders@.subrange(0, i as int + 1) =~= pre.push(orders@[i as int]));
                lemma_sum_by_push(pre, orders@[i as int], |d: OrderData| intent_ask_size(d));
                lemma_sum_by_push(pre, orders@[i as int], |d: OrderData| intent_bid_notional(d));
            }
            match d.side {
                OrderSide::Ask => {
                    match comm.checked_add(d.size) {
                        Option::Some(c) => {
                            comm = c;
                        },
                        Option::None => {
                            proof {
                                lemma_intent_prefix_bound(orders@, i as int + 1);
                            }
                            return false;
                        },
                    }
                },
                OrderSide::Bid => {
                    if let Option::Some(p) = d.price {
                        proof {
                            assert(p.as_int * d.size > 0) by (nonlinear_arith)
                                requires
                                    p.as_int > 0,
                                    d.size > 0,
                            ;
                        }
                        match p.as_int.checked_mul(d.size) {
                            Option::Some(v) => {
                                match need.checked_add(v) {
                                    Option::Some(m) => {
                                        need = m;
                                    },
                                    Option::None => {
                                        proof {
                                            lemma_intent_prefix_bound(orders@, i as int + 1);
                                        }
                                        return false;
                                    },
                                }
                            },
                            Option::None => {
                                proof {
                                    lemma_intent_prefix_bound(orders@, i as int + 1);
                                }
                                return false;
                            },
                        }
                    }
                },
            }
            i = i + 1;
        }
        proof {
            assert(orders@.subrange(0, orders@.len() as int) =~= orders@);
        }
        self.commodity - self.reserved_commodity >= comm && self.money.as_int
            - self.reserved_money.as_int >= need
    }

    /// Reserves for one admitted order.  A limit bid needs its notional in
    /// uncommitted cash; any ask needs its size in uncommitted inventory;
    /// a market bid is always accepted with nothing reserved.  Returns
    /// whether the reservation was made; a refused order leaves the
    /// account untouched.
    pub fn reserve_order(&mut self, order: Order) -> (r: bool)
        requires
            0 <= old(self).reserved_money.as_int,
            0 <= old(self).reserved_commodity,
            order.size > 0,
            match order.price {
                Option::Some(p) => p.as_int > 0,
                Option::None => true,
            },
        ensures
            old(self).wf() ==> final(self).wf(),
            final(self).commodity == old(self).commodity,
            final(self).money == old(self).money,
            final(self).dept == old(self).dept,
            match (order.price, order.side) {
                (Option::Some(p), OrderSide::Bid) => {
                    if p.as_int * order.size + old(self).reserved_money.as_int <= old(
                        self,
                    ).money.as_int {
                        &&& r
                        &&& final(self).reserved_money.as_int == old(self).reserved_money.as_int
                            + p.as_int * order.size
                        &&& final(self).reserved_commodity == old(self).reserved_commodity
                    } else {
                        &&& !r
                        &&& *final(self) == *old(self)
                    }
                },
                (Option::None, OrderSide::Bid) => r && *final(self) == *old(self),
                (_, OrderSide::Ask) => {
                    if order.size + old(self).reserved_commodity <= old(self).commodity {
                        &&& r
                        &&& final(self).reserved_commodity == old(self).reserved_commodity
                            + order.size
                        &&& final(self).reserved_money == old(self).reserved_money
                    } else {
                        &&& !r
                        &&& *final(self) == *old(self)
                    }
                },
            },
    {
        if let Option::Some(limit_order) = LimitOrder::of_order(&order) {
            self.reserve_limit_order(&limit_order)
        } else if let Option::Some(market_order) = MarketOrder::of_order(&order) {
            self.reserve_market_order(&market_order)
        } else {
            false
        }
    }

    /// Reserves for a market order: an ask earmarks its size against
    /// inventory, a bid reserves nothing and is always accepted.
    pub fn reserve_market_order(&mut self, order: &MarketOrder) -> (r: bool)
        requires
            0 <= old(self).reserved_commodity,
            order.spec_data().size > 0,
        ensures
            old(self).wf() ==> final(self).wf(),
            final(self).commodity == old(self).commodity,
            final(self).money == old(self).money,
            final(self).reserved_money == old(self).reserved_money,
            final(self).dept == old(self).dept,
            match *order {
                MarketOrder::BidOrder { .. } => r && *final(self) == *old(self),
                MarketOrder::AskOrder { data } => {
                    if data.size + old(self).reserved_commodity <= old(self).commodity {
                        &&& r
                        &&& final(self).reserved_commodity == old(self).reserved_commodity
                            + data.size
                    } else {
                        &&& !r
                        &&& *final(self) == *old(self)
                    }
                },
            },
    {
        match order {
            MarketOrder::BidOrder { .. } => true,
            MarketOrder::AskOrder { data } => {
                match data.size.checked_add(self.reserved_commodity) {
                    Option::Some(total) => {
                        if total <= self.commodity {
                            self.reserved_commodity = total;
                            true
                        } else {
                            false
                        }
                    },
                    Option::None => false,
                }
            },
        }
    }

    /// Reserves for a limit order: a bid earmarks its notional against
    /// cash, an ask its size against inventory.
    pub fn reserve_limit_order(&mut self, order: &LimitOrder) -> (r: bool)
        requires
            0 <= old(self).reserved_money.as_int,
            0 <= old(self).reserved_commodity,
            order.spec_data().size > 0,
            order.spec_data().price.as_int > 0,
        ensures
            old(self).wf() ==> final(self).wf(),
            final(self).commodity == old(self).commodity,
            final(self).money == old(self).money,
            final(self).dept == old(self).dept,
            match *order {
                LimitOrder::BidOrder { data } => {
                    &&& final(self).reserved_commodity == old(self).reserved_commodity
                    &&& if data.price.as_int * data.size + old(self).reserved_money.as_int <= old(
                        self,
                    ).money.as_int {
                        r && final(self).reserved_money.as_int == old(self).reserved_money.as_int
                            + data.price.as_int * data.size
                    } else {
                        !r && *final(self) == *old(self)
                    }
                },
                LimitOrder::AskOrder { data } => {
                    &&& final(self).reserved_money == old(self).reserved_money
                    &&& if data.size + old(self).reserved_commodity <= old(self).commodity {
                        r && final(self).reserved_commodity == old(self).reserved_commodity
                            + data.size
                    } else {
                        !r && *final(self) == *old(self)
                    }
                },
            },
    {
        match order {
            LimitOrder::BidOrder { data } => {
                proof {
                    assert(data.price.as_int * data.size > 0) by (nonlinear_arith)
                        requires
                            data.price.as_int > 0,
                            data.size > 0,
                    ;
                }
                match data.price.as_int.checked_mul(data.size) {
                    Option::Some(maximum_transaction) => {
                        match maximum_transaction.checked_add(self.reserved_money.as_int) {
                            Option::Some(total) => {
                                if total <= self.money.as_int {
                                    self.reserved_money = Amount { as_int: total };
                                    true
                                } else {
                                    false
                                }
                            },
                            Option::None => false,
                        }
                    },
                    Option::None => false,
                }
            },
            LimitOrder::AskOrder { data } => {
                match data.size.checked_add(self.reserved_commodity) {
                    Option::Some(total) => {
                        if total <= self.commodity {
                            self.reserved_commodity = total;
                            true
                        } else {
                            false
                        }
                    },
                    Option::None => false,
                }
            },
        }
    }
}

impl Default for Account {
    fn default() -> (r: Self)
        ensures
            r.commodity == 0,
            r.money.as_int == 0,
            r.reserved_money.as_int == 0,
            r.reserved_commodity == 0,
            r.dept.as_int == 0,
            r == Self::spec_empty_account(),
            r.wf(),
    {
        Account {
            commodity: 0,
            money: Amount { as_int: 0 },
            reserved_money: Amount { as_int: 0 },
            reserved_commodity: 0,
            dept: Amount { as_int: 0 },
        }
    }
}

/// Admissible intents reserve non-negative quantities.
proof fn lemma_intent_sums_nonneg(s: Seq<OrderData>)
    requires
        forall|i: int| 0 <= i < s.len() ==> data_admissible(#[trigger] s[i]),
    ensures
        intents_ask_size_sum(s) >= 0,
        intents_bid_notional_sum(s) >= 0,
{
    let f = |d: OrderData| intent_ask_size(d);
    let g = |d: OrderData| intent_bid_notional(d);
    assert forall|i: int| 0 <= i < s.len() implies f(#[trigger] s[i]) >= 0 by {
        assert(data_admissible(s[i]));
    }
    assert forall|i: int| 0 <= i < s.len() implies g(#[trigger] s[i]) >= 0 by {
        assert(data_admissible(s[i]));
        if s[i].side is Bid && s[i].price is Some {
            assert(s[i].price->Some_0.as_int * s[i].size >= 0) by (nonlinear_arith)
                requires
                    s[i].price->Some_0.as_int > 0,
                    s[i].size > 0,
            ;
        }
    }
    lemma_sum_by_nonneg(s, f);
    lemma_sum_by_nonneg(s, g);
}

/// Each prefix reserves at most what the whole batch reserves.
proof fn lemma_intent_prefix_bound(s: Seq<OrderData>, i: int)
    requires
        0 <= i <= s.len(),
        forall|k: int| 0 <= k < s.len() ==> data_admissible(#[trigger] s[k]),
    ensures
        intents_ask_size_sum(s.subrange(0, i)) <= intents_ask_size_sum(s),
        intents_bid_notional_sum(s.subrange(0, i)) <= intents_bid_notional_sum(s),
{
    lemma_sum_by_split(s, i, |d: OrderData| intent_ask_size(d));
    lemma_sum_by_split(s, i, |d: OrderData| intent_bid_notional(d));
    let suffix = s.subrange(i, s.len() as int);
    assert forall|k: int| 0 <= k < suffix.len() implies data_admissible(#[trigger] suffix[k]) by {
        assert(suffix[k] == s[i + k]);
    }
    lemma_intent_sums_nonneg(suffix);
}

} // verus!
