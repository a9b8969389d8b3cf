//! Reference trading strategies: an idle agent, fixed-size buyers and
//! sellers, and incremental-price buyers and sellers that probe the market
//! by nudging their price after each step.

use vstd::prelude::*;
use crate::account::Account;
use crate::agent::{Agent, AgentId};
use crate::amount::Amount;
use crate::market::{History, MarketInfo};
use crate::orders::flat::{OrderData, OrderSide, MAX_ORDER_PRICE};

verus! {

/// Repeats one intent a bounded number of times; a non-positive count
/// yields nothing.
fn repeat_intent(data: OrderData, count: i64) -> (r: Vec<OrderData>)
    ensures
        count > 0 ==> r@.len() == count,
        count <= 0 ==> r@.len() == 0,
        forall|i: int| 0 <= i < r@.len() ==> #[trigger] r@[i] == data,
{
    let mut r: Vec<OrderData> = Vec::new();
    if count <= 0 {
        return r;
    }
    let mut i: i64 = 0;
    while i < count
        invariant
            0 <= i <= count,
            r@.len() == i,
            forall|k: int| 0 <= k < r@.len() ==> #[trigger] r@[k] == data,
        decreases count - i,
    {
        r.push(data);
        i = i + 1;
    }
    r
}

/// The previous step's market price, when the history admits one.
fn guarded_market_price(history: &History) -> (r: Option<Amount>)
    ensures
        crate::market::price_ok(history.transactions@) ==> r == crate::market::spec_market_price(
            history.transactions@,
        ),
{
    if history.price_computable() {
        history.market_price()
    } else {
        Option::None
    }
}

/// Whether an order of the given side with a positive size is left
/// unfulfilled in the history.
fn side_unfulfilled(history: &History, side: OrderSide) -> (r: bool)
    ensures
        r == (exists|i: int|
            0 <= i < history.unfulfilled_orders@.len()
                && (#[trigger] history.unfulfilled_orders@[i]).side == side
                && history.unfulfilled_orders@[i].size > 0),
{
    let n = history.unfulfilled_orders.len();
    let mut i: usize = 0;
    while i < n
        invariant
            n == history.unfulfilled_orders@.len(),
            i <= n,
            forall|k: int|
                0 <= k < i ==> !((#[trigger] history.unfulfilled_orders@[k]).side == side
                    && history.unfulfilled_orders@[k].size > 0),
        decreases n - i,
    {
        let o = history.unfulfilled_orders[i];
        let same_side = match (o.side, side) {
            (OrderSide::Bid, OrderSide::Bid) => true,
            (OrderSide::Ask, OrderSide::Ask) => true,
            _ => false,
        };
        if same_side && o.size > 0 {
            return true;
        }
        i = i + 1;
    }
    false
}

/// An agent that never trades.
pub struct IdleAgent<T> {
    pub _ph: core::marker::PhantomData<T>,
}

impl<T> Agent for IdleAgent<T> {
    type CommodityType = T;

    fn setup(&mut self, _id: AgentId, _info: &MarketInfo<T>) {
    }

    fn produce_orders(
        &mut self,
        _account: &Account,
        _info: &MarketInfo<T>,
        _history: &History,
    ) -> (r: Vec<OrderData>)
        ensures
            r@.len() == 0,
    {
        Vec::new()
    }
}

/// Sells a fixed number of fixed-size asks every few steps, at the going
/// market price or, failing that, at its own innate price.
pub struct SellAgent<T> {
    pub ask_size: i64,
    pub ask_amount: i64,
    pub period: u64,
    pub innate_price: Option<Amount>,
    pub _ph: core::marker::PhantomData<T>,
}

impl<T> Agent for SellAgent<T> {
    type CommodityType = T;

    fn setup(&mut self, _id: AgentId, _info: &MarketInfo<T>) {
    }

    fn produce_orders(
        &mut self,
        account: &Account,
        _info: &MarketInfo<T>,
        history: &History,
    ) -> (r: Vec<OrderData>)
        ensures
            forall|i: int| 0 <= i < r@.len() ==> (#[trigger] r@[i]).side is Ask,
    {
        if account.commodity == 0 || self.period == 0 || history.step % self.period != 0 {
            return Vec::new();
        }
        let price = match guarded_market_price(history) {
            Option::Some(p) => Option::Some(p),
            Option::None => self.innate_price,
        };
        let size = if account.commodity <= self.ask_size {
            account.commodity
        } else {
            self.ask_size
        };
        repeat_intent(OrderData { side: OrderSide::Ask, price, size }, self.ask_amount)
    }
}

/// Buys a fixed number of fixed-size bids every few steps, at the going
/// market price or, failing that, at its own innate price.
pub struct BuyAgent<T> {
    pub bid_size: i64,
    pub bid_amount: i64,
    pub period: u64,
    pub innate_price: Option<Amount>,
    pub _ph: core::marker::PhantomData<T>,
}

impl<T> Agent for BuyAgent<T> {
    type CommodityType = T;

    fn setup(&mut self, _id: AgentId, _info: &MarketInfo<T>) {
    }

    fn produce_orders(
        &mut self,
        account: &Account,
        _info: &MarketInfo<T>,
        history: &History,
    ) -> (r: Vec<OrderData>)
        ensures
            forall|i: int| 0 <= i < r@.len() ==> (#[trigger] r@[i]).side is Bid
                && r@[i].size == old(self).bid_size,
    {
        if account.money.as_int == 0 || self.period == 0 || history.step % self.period != 0 {
            return Vec::new();
        }
        let price = match guarded_market_price(history) {
            Option::Some(p) => Option::Some(p),
            Option::None => self.innate_price,
        };
        repeat_intent(
            OrderData { side: OrderSide::Bid, price, size: self.bid_size },
            self.bid_amount,
        )
    }
}

/// Buys at a price it raises while it is served and lowers while its bids
/// go unfulfilled; with no workable price left it falls back to market
/// bids.
pub struct IncBuyAgent<T> {
    pub bid_size: i64,
    pub bid_amount: i64,
    pub period: u64,
    pub my_id: AgentId,
    pub price: Amount,
    pub increment: Amount,
    pub _ph: core::marker::PhantomData<T>,
}

impl<T> Agent for IncBuyAgent<T> {
    type CommodityType = T;

    fn setup(&mut self, id: AgentId, _info: &MarketInfo<T>) {
        self.my_id = id;
    }

    fn produce_orders(
        &mut self,
        account: &Account,
        _info: &MarketInfo<T>,
        history: &History,
    ) -> (r: Vec<OrderData>)
        ensures
            forall|i: int| 0 <= i < r@.len() ==> (#[trigger] r@[i]).side is Bid
                && r@[i].size == old(self).bid_size,
            final(self).bid_size == old(self).bid_size,
            final(self).bid_amount == old(self).bid_amount,
            final(self).period == old(self).period,
    {
        if self.period == 0 || history.step % self.period != 0 {
            return Vec::new();
        }
        if account.money.as_int == 0 {
            return Vec::new();
        }
        let missing_comm = side_unfulfilled(history, OrderSide::Bid);
        let p0 = if self.price.as_int < 0 {
            0
        } else if self.price.as_int > MAX_ORDER_PRICE {
            MAX_ORDER_PRICE
        } else {
            self.price.as_int
        };
        let inc = if self.increment.as_int > 0 {
            self.increment.as_int
        } else {
            0
        };
        if missing_comm {
            self.price = Amount { as_int: if p0 >= inc { p0 - inc } else { 0 } };
        } else {
            // the book would reject anything above its price cap, so the
            // probe stops there
            self.price = Amount {
                as_int: if inc <= MAX_ORDER_PRICE && p0 <= MAX_ORDER_PRICE - inc {
                    p0 + inc
                } else {
                    MAX_ORDER_PRICE
                },
            };
        }
        if self.price.as_int <= 0 {
            return repeat_intent(
                OrderData { side: OrderSide::Bid, price: Option::None, size: self.bid_size },
                self.bid_amount,
            );
        }
        let units = account.money.as_int / self.price.as_int;
        if units <= 0 {
            return Vec::new();
        }
        if self.bid_size <= 0 {
            return Vec::new();
        }
        let per_size = units / self.bid_size;
        let order_num = if per_size <= self.bid_amount {
            per_size
        } else {
            self.bid_amount
        };
        if order_num <= 0 {
            return Vec::new();
        }
        repeat_intent(
            OrderData {
                side: OrderSide::Bid,
                price: Option::Some(self.price),
                size: self.bid_size,
            },
            order_num,
        )
    }
}

/// Sells at a price it raises while it is served and lowers while its
/// asks go unfulfilled; with no workable price left it falls back to
/// market asks.
pub struct IncSellAgent<T> {
    pub ask_size: i64,
    pub ask_amount: i64,
    pub period: u64,
    pub my_id: AgentId,
    pub price: Amount,
    pub increment: Amount,
    pub _ph: core::marker::PhantomData<T>,
}

impl<T> Agent for IncSellAgent<T> {
    type CommodityType = T;

    fn setup(&mut self, id: AgentId, _info: &MarketInfo<T>) {
        self.my_id = id;
    }

    fn produce_orders(
        &mut self,
        account: &Account,
        _info: &MarketInfo<T>,
        history: &History,
    ) -> (r: Vec<OrderData>)
        ensures
            forall|i: int| 0 <= i < r@.len() ==> (#[trigger] r@[i]).side is Ask
                && r@[i].size == old(self).ask_size,
            final(self).ask_size == old(self).ask_size,
            final(self).ask_amount == old(self).ask_amount,
            final(self).period == old(self).period,
    {
        if self.period == 0 || history.step % self.period != 0 {
            return Vec::new();
        }
        if account.commodity == 0 {
            return Vec::new();
        }
        let missing_comm = side_unfulfilled(history, OrderSide::Ask);
        let p0 = if self.price.as_int < 0 {
            0
        } else if self.price.as_int > MAX_ORDER_PRICE {
            MAX_ORDER_PRICE
        } else {
            self.price.as_int
        };
        let inc = if self.increment.as_int > 0 {
            self.increment.as_int
        } else {
            0
        };
        if missing_comm {
            self.price = Amount { as_int: if p0 >= inc { p0 - inc } else { 0 } };
        } else {
            self.price = Amount {
                as_int: if inc <= MAX_ORDER_PRICE && p0 <= MAX_ORDER_PRICE - inc {
                    p0 + inc
                } else {
                    MAX_ORDER_PRICE
                },
            };
        }
        if self.price.as_int <= 0 {
            return repeat_intent(
                OrderData { side: OrderSide::Ask, price: Option::None, size: self.ask_size },
                self.ask_amount,
            );
        }
        if self.ask_size <= 0 {
            return Vec::new();
        }
        let per_size = account.commodity / self.ask_size;
        let order_num = if per_size <= self.ask_amount {
            per_size
        } else {
            self.ask_amount
        };
        if order_num <= 0 {
            return Vec::new();
        }
        repeat_intent(
            OrderData {
                side: OrderSide::Ask,
                price: Option::Some(self.price),
                size: self.ask_size,
            },
            order_num,
        )
    }
}

} // verus!
