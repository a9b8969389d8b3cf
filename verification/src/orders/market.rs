//! Market orders and their priority ordering.
//!
//! Market orders carry no price, so on either side the older timestamp
//! wins, and among equal timestamps the smaller id.

use vstd::prelude::*;
use crate::orders::flat::{MarketOrderData, Order, OrderSide};

verus! {

/// A market order tagged with its side.
#[derive(Copy, Clone, Debug, PartialEq, Eq)]
pub enum MarketOrder {
    BidOrder { data: MarketOrderData },
    AskOrder { data: MarketOrderData },
}

/// A market order known to be a bid, in queue priority order.
#[derive(Copy, Clone, Debug, PartialEq, Eq)]
pub struct BidMarketOrder {
    pub data: MarketOrderData,
}

/// A market order known to be an ask, in queue priority order.
#[derive(Copy, Clone, Debug, PartialEq, Eq)]
pub struct AskMarketOrder {
    pub data: MarketOrderData,
}

/// `a` has no more market-queue priority than `b`: the older timestamp
/// wins, then the smaller id.
pub open spec fn market_le(a: MarketOrderData, b: MarketOrderData) -> bool {
    if a.timestamp != b.timestamp {
        a.timestamp > b.timestamp
    } else {
        a.id >= b.id
    }
}

/// The market priority relation orders any two orders.
pub proof fn lemma_market_le_total(a: MarketOrderData, b: MarketOrderData)
    ensures
        market_le(a, b) || market_le(b, a),
{
}

/// The market priority relation is transitive.
pub proof fn lemma_market_le_trans(a: MarketOrderData, b: MarketOrderData, c: MarketOrderData)
    ensures
        market_le(a, b) && market_le(b, c) ==> market_le(a, c),
{
}

/// Decides `market_le` on concrete orders.
pub fn market_le_exec(a: &MarketOrderData, b: &MarketOrderData) -> (r: bool)
    ensures
        r == market_le(*a, *b),
{
    if a.timestamp != b.timestamp {
        a.timestamp > b.timestamp
    } else {
        a.id >= b.id
    }
}

impl MarketOrder {
    /// The bare record, whichever the side.
    pub open spec fn spec_data(self) -> MarketOrderData {
        match self {
            MarketOrder::BidOrder { data } => data,
            MarketOrder::AskOrder { data } => data,
        }
    }

    /// Classifies an unpriced order by its side; `None` for a limit order.
    pub fn of_order(order: &Order) -> (r: Option<MarketOrder>)
        ensures
            match order.spec_market_data() {
                Option::Some(data) => r == Option::Some(
                    if order.side is Bid {
                        MarketOrder::BidOrder { data }
                    } else {
                        MarketOrder::AskOrder { data }
                    },
                ),
                Option::None => r is None,
            },
    {
        match order.market_data() {
            Option::Some(data) => Option::Some(
                match order.side {
                    OrderSide::Bid => MarketOrder::BidOrder { data },
                    OrderSide::Ask => MarketOrder::AskOrder { data },
                },
            ),
            Option::None => Option::None,
        }
    }

    /// Rebuilds the full order record.
    pub fn to_order(&self) -> (r: Order)
        ensures
            r == self.spec_data().to_order(
                if *self is BidOrder {
                    OrderSide::Bid
                } else {
                    OrderSide::Ask
                },
            ),
    {
        match self {
            MarketOrder::BidOrder { data } => data.to_order(OrderSide::Bid),
            MarketOrder::AskOrder { data } => data.to_order(OrderSide::Ask),
        }
    }
}

impl BidMarketOrder {
    /// Wraps a bare record as a bid.
    pub fn of_data(data: MarketOrderData) -> (r: Self)
        ensures
            r.data == data,
    {
        BidMarketOrder { data }
    }

    /// Rebuilds the full order record.
    pub fn to_order(&self) -> (r: Order)
        ensures
            r == self.data.to_order(OrderSide::Bid),
    {
        self.data.to_order(OrderSide::Bid)
    }
}

impl AskMarketOrder {
    /// Wraps a bare record as an ask.
    pub fn of_data(data: MarketOrderData) -> (r: Self)
        ensures
            r.data == data,
    {
        AskMarketOrder { data }
    }

    /// Rebuilds the full order record.
    pub fn to_order(&self) -> (r: Order)
        ensures
            r == self.data.to_order(OrderSide::Ask),
    {
        self.data.to_order(OrderSide::Ask)
    }
}

} // verus!
