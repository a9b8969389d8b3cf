//! Limit orders and their priority ordering.
//!
//! Each priority queue of the book keeps its worst order first and its best
//! order last, under the `..._le` relations below: a bid is better when its
//! price is higher, an ask when its price is lower; ties fall to the older
//! timestamp and then to the smaller id.

use vstd::prelude::*;
use crate::orders::flat::{LimitOrderData, Order, OrderSide};

verus! {

/// A limit order tagged with its side.
#[derive(Copy, Clone, Debug, PartialEq, Eq)]
pub enum LimitOrder {
    BidOrder { data: LimitOrderData },
    AskOrder { data: LimitOrderData },
}

/// A limit order known to be a bid, ordered by bid priority.
#[derive(Copy, Clone, Debug, PartialEq, Eq)]
pub struct BidLimitOrder {
    pub data: LimitOrderData,
}

/// A limit order known to be an ask, ordered by ask priority.
#[derive(Copy, Clone, Debug, PartialEq, Eq)]
pub struct AskLimitOrder {
    pub data: LimitOrderData,
}

/// `a` has no more bid priority than `b`: a bid is better when it pays a
/// higher price; among equal prices the older timestamp wins, and among
/// equal timestamps the smaller id (the earlier admission) wins.
pub open spec fn bid_le(a: LimitOrderData, b: LimitOrderData) -> bool {
    if a.price.as_int != b.price.as_int {
        a.price.as_int < b.price.as_int
    } else if a.timestamp != b.timestamp {
        a.timestamp > b.timestamp
    } else {
        a.id >= b.id
    }
}

/// `a` has no more ask priority than `b`: an ask is better when it sells at
/// a lower price; ties fall as for bids.
pub open spec fn ask_le(a: LimitOrderData, b: LimitOrderData) -> bool {
    if a.price.as_int != b.price.as_int {
        a.price.as_int > b.price.as_int
    } else if a.timestamp != b.timestamp {
        a.timestamp > b.timestamp
    } else {
        a.id >= b.id
    }
}

/// Both priority relations order any two limit orders, one way or the other.
pub proof fn lemma_limit_le_total(a: LimitOrderData, b: LimitOrderData)
    ensures
        bid_le(a, b) || bid_le(b, a),
        ask_le(a, b) || ask_le(b, a),
{
}

/// Both priority relations are transitive.
pub proof fn lemma_limit_le_trans(a: LimitOrderData, b: LimitOrderData, c: LimitOrderData)
    ensures
        bid_le(a, b) && bid_le(b, c) ==> bid_le(a, c),
        ask_le(a, b) && ask_le(b, c) ==> ask_le(a, c),
{
}

/// Decides `bid_le` on concrete orders.
pub fn bid_le_exec(a: &LimitOrderData, b: &LimitOrderData) -> (r: bool)
    ensures
        r == bid_le(*a, *b),
{
    if a.price.as_int != b.price.as_int {
        a.price.as_int < b.price.as_int
    } else if a.timestamp != b.timestamp {
        a.timestamp > b.timestamp
    } else {
        a.id >= b.id
    }
}

/// Decides `ask_le` on concrete orders.
pub fn ask_le_exec(a: &LimitOrderData, b: &LimitOrderData) -> (r: bool)
    ensures
        r == ask_le(*a, *b),
{
    if a.price.as_int != b.price.as_int {
        a.price.as_int > b.price.as_int
    } else if a.timestamp != b.timestamp {
        a.timestamp > b.timestamp
    } else {
        a.id >= b.id
    }
}

impl LimitOrder {
    /// The bare record, whichever the side.
    pub open spec fn spec_data(self) -> LimitOrderData {
        match self {
            LimitOrder::BidOrder { data } => data,
            LimitOrder::AskOrder { data } => data,
        }
    }

    /// Classifies a priced order by its side; `None` for a market order.
    pub fn of_order(order: &Order) -> (r: Option<LimitOrder>)
        ensures
            match order.spec_limit_data() {
                Option::Some(data) => r == Option::Some(
                    if order.side is Bid {
                        LimitOrder::BidOrder { data }
                    } else {
                        LimitOrder::AskOrder { data }
                    },
                ),
                Option::None => r is None,
            },
    {
        match order.limit_data() {
            Option::Some(data) => Option::Some(
                match order.side {
                    OrderSide::Bid => LimitOrder::BidOrder { data },
                    OrderSide::Ask => LimitOrder::AskOrder { data },
                },
            ),
            Option::None => Option::None,
        }
    }

    /// Rebuilds the full order record.
    pub fn to_order(&self) -> (r: Order)
        ensures
            r == self.spec_data().to_order(
                if *self is BidOrder {
                    OrderSide::Bid
                } else {
                    OrderSide::Ask
                },
            ),
    {
        match self {
            LimitOrder::BidOrder { data } => data.to_order(OrderSide::Bid),
            LimitOrder::AskOrder { data } => data.to_order(OrderSide::Ask),
        }
    }
}

impl BidLimitOrder {
    /// Wraps a bare record as a bid.
    pub fn of_data(data: LimitOrderData) -> (r: Self)
        ensures
            r.data == data,
    {
        BidLimitOrder { data }
    }

    /// Rebuilds the full order record.
    pub fn to_order(&self) -> (r: Order)
        ensures
            r == self.data.to_order(OrderSide::Bid),
    {
        self.data.to_order(OrderSide::Bid)
    }
}

impl AskLimitOrder {
    /// Wraps a bare record as an ask.
    pub fn of_data(data: LimitOrderData) -> (r: Self)
        ensures
            r.data == data,
    {
        AskLimitOrder { data }
    }

    /// Rebuilds the full order record.
    pub fn to_order(&self) -> (r: Order)
        ensures
            r == self.data.to_order(OrderSide::Ask),
    {
        self.data.to_order(OrderSide::Ask)
    }
}

} // verus!
