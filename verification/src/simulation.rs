//! A ready-made simulation: one market, a mixed population of reference
//! agents, and a step driver that carries the market price forward.

use vstd::prelude::*;
use crate::account::Account;
use crate::agent::{Agent, AgentId};
use crate::agents::{BuyAgent, IncBuyAgent, IncSellAgent, SellAgent};
use crate::amount::Amount;
use crate::book::{Transaction, MAX_FALLBACK_PRICE};
use crate::market::{
    acc_comm_sum, acc_money_sum, step_headroom, History, Market, MarketInfo,
};
use crate::orders::flat::OrderData;

verus! {

/// The one commodity this simulation trades.
pub enum CommodityType {
    Unit,
}

/// Any of the reference strategies, so that one table can hold a mixed
/// population.
pub enum ReferenceAgent {
    Buyer(BuyAgent<CommodityType>),
    Seller(SellAgent<CommodityType>),
    IncBuyer(IncBuyAgent<CommodityType>),
    IncSeller(IncSellAgent<CommodityType>),
}

impl Agent for ReferenceAgent {
    type CommodityType = CommodityType;

    fn setup(&mut self, id: AgentId, info: &MarketInfo<CommodityType>)
        ensures
            *final(self) is Buyer == *old(self) is Buyer,
            *final(self) is Seller == *old(self) is Seller,
            *final(self) is IncBuyer == *old(self) is IncBuyer,
            *final(self) is IncSeller == *old(self) is IncSeller,
    {
        match self {
            ReferenceAgent::Buyer(a) => a.setup(id, info),
            ReferenceAgent::Seller(a) => a.setup(id, info),
            ReferenceAgent::IncBuyer(a) => a.setup(id, info),
            ReferenceAgent::IncSeller(a) => a.setup(id, info),
        }
    }

    fn produce_orders(
        &mut self,
        account: &Account,
        info: &MarketInfo<CommodityType>,
        history: &History,
    ) -> Vec<OrderData> {
        match self {
            ReferenceAgent::Buyer(a) => a.produce_orders(account, info, history),
            ReferenceAgent::Seller(a) => a.produce_orders(account, info, history),
            ReferenceAgent::IncBuyer(a) => a.produce_orders(account, info, history),
            ReferenceAgent::IncSeller(a) => a.produce_orders(account, info, history),
        }
    }
}

/// A market under a mixed population of reference agents, together with
/// the running history and the carried-forward market price.
pub struct MarketConfiguration {
    pub market: Market<CommodityType>,
    pub agents: Vec<(AgentId, ReferenceAgent)>,
    pub history: History,
    pub market_price: Option<Amount>,
    pub step: u64,
}

/// The balances every simulated agent starts with.
fn simulation_account() -> (r: Account)
    ensures
        r == simulation_account_value(),
        r.wf(),
{
    Account {
        commodity: 100,
        money: Amount { as_int: 1000 },
        reserved_money: Amount { as_int: 0 },
        reserved_commodity: 0,
        dept: Amount { as_int: 0 },
    }
}

impl MarketConfiguration {
    /// Registers a reference agent with the standard simulation account.
    fn add_agent(
        market: &mut Market<CommodityType>,
        agents: &mut Vec<(AgentId, ReferenceAgent)>,
        agent: ReferenceAgent,
    )
        ensures
            final(market).accounts@.len() == old(market).accounts@.len() + 1,
            final(market).spec_book() == old(market).spec_book(),
            final(market).owners() == old(market).owners(),
            final(market).house() == old(market).house(),
            final(market).history == old(market).history,
            final(market).info == old(market).info,
            old(market).inv() ==> final(market).inv(),
            forall|j: int|
                0 <= j < old(market).accounts@.len() ==> #[trigger] final(market).accounts@[j]
                    == old(market).accounts@[j],
            final(market).accounts@.last() == simulation_account_value(),
            final(agents)@.len() == old(agents)@.len() + 1,
            forall|j: int| 0 <= j < old(agents)@.len() ==> #[trigger] final(agents)@[j] == old(
                agents,
            )@[j],
            (final(agents)@.last()).0.0 == old(market).accounts@.len(),
            (final(agents)@.last()).1 is Buyer == agent is Buyer,
            (final(agents)@.last()).1 is Seller == agent is Seller,
            (final(agents)@.last()).1 is IncBuyer == agent is IncBuyer,
            (final(agents)@.last()).1 is IncSeller == agent is IncSeller,
    {
        let mut agent = agent;
        let id = market.register_with_acc(simulation_account());
        agent.setup(id, &market.info);
        agents.push((id, agent));
    }

    /// Builds the standard population: a few fixed-price buyers and
    /// sellers and a larger crowd of incremental-price traders, each with
    /// the standard account.
    pub fn new() -> (r: Self)
        ensures
            r.market.inv(),
            r.market.spec_book().bids().len() == 0,
            r.market.spec_book().asks().len() == 0,
            r.market.spec_book().mbids().len() == 0,
            r.market.spec_book().masks().len() == 0,
            r.market.house().money.as_int == 0,
            r.market.accounts@.len() == 26,
            forall|j: int|
                0 <= j < r.market.accounts@.len() ==> #[trigger] r.market.accounts@[j]
                    == simulation_account_value(),
            r.agents@.len() == 26,
            forall|j: int| 0 <= j < 26 ==> (#[trigger] r.agents@[j]).0.0 == j,
            forall|j: int| 0 <= j < 3 ==> (#[trigger] r.agents@[j]).1 is Buyer,
            forall|j: int| 3 <= j < 6 ==> (#[trigger] r.agents@[j]).1 is Seller,
            forall|j: int| 6 <= j < 16 ==> (#[trigger] r.agents@[j]).1 is IncBuyer,
            forall|j: int| 16 <= j < 26 ==> (#[trigger] r.agents@[j]).1 is IncSeller,
            r.step == 1,
            r.market_price is None,
            r.history.step == 0,
            r.history.transactions@.len() == 0,
            r.history.rejected_orders@.len() == 0,
            r.history.unfulfilled_orders@.len() == 0,
    {
        let mut market = Market::new(
            MarketInfo { name: new_strlit_name(), commodity: CommodityType::Unit },
        );
        let mut agents: Vec<(AgentId, ReferenceAgent)> = Vec::new();
        let mut i: u64 = 0;
        while i < 3
            invariant
                i <= 3,
                market.inv(),
                market.spec_book().bids().len() == 0,
                market.spec_book().asks().len() == 0,
                market.spec_book().mbids().len() == 0,
                market.spec_book().masks().len() == 0,
                market.house().money.as_int == 0,
                agents@.len() == market.accounts@.len(),
                market.accounts@.len() == i,
                forall|j: int|
                    0 <= j < agents@.len() ==> (#[trigger] agents@[j]).0.0 == j,
                forall|j: int| 0 <= j < 3 && j < agents@.len() ==> (#[trigger] agents@[j]).1 is Buyer,
                forall|j: int|
                    0 <= j < market.accounts@.len() ==> #[trigger] market.accounts@[j]
                        == simulation_account_value(),
            decreases 3 - i,
        {
            Self::add_agent(
                &mut market,
                &mut agents,
                ReferenceAgent::Buyer(
                    BuyAgent {
                        bid_size: 1,
                        bid_amount: 1,
                        period: 1,
                        innate_price: Option::Some(Amount { as_int: 50 }),
                        _ph: core::marker::PhantomData,
                    },
                ),
            );
            i = i + 1;
        }
        let mut i: u64 = 0;
        while i < 3
            invariant
                i <= 3,
                market.inv(),
                market.spec_book().bids().len() == 0,
                market.spec_book().asks().len() == 0,
                market.spec_book().mbids().len() == 0,
                market.spec_book().masks().len() == 0,
                market.house().money.as_int == 0,
                agents@.len() == market.accounts@.len(),
                market.accounts@.len() == 3 + i,
                forall|j: int|
                    0 <= j < agents@.len() ==> (#[trigger] agents@[j]).0.0 == j,
                forall|j: int| 0 <= j < 3 && j < agents@.len() ==> (#[trigger] agents@[j]).1 is Buyer,
                forall|j: int| 3 <= j < 6 && j < agents@.len() ==> (#[trigger] agents@[j]).1 is Seller,
                forall|j: int|
                    0 <= j < market.accounts@.len() ==> #[trigger] market.accounts@[j]
                        == simulation_account_value(),
            decreases 3 - i,
        {
            Self::add_agent(
                &mut market,
                &mut agents,
                ReferenceAgent::Seller(
                    SellAgent {
                        ask_size: 1,
                        ask_amount: 2,
                        period: 2,
                        innate_price: Option::Some(Amount { as_int: 25 }),
                        _ph: core::marker::PhantomData,
                    },
                ),
            );
            i = i + 1;
        }
        let mut i: u64 = 0;
        while i < 10
            invariant
                i <= 10,
                market.inv(),
                market.spec_book().bids().len() == 0,
                market.spec_book().asks().len() == 0,
                market.spec_book().mbids().len() == 0,
                market.spec_book().masks().len() == 0,
                market.house().money.as_int == 0,
                agents@.len() == market.accounts@.len(),
                market.accounts@.len() == 6 + i,
                forall|j: int|
                    0 <= j < agents@.len() ==> (#[trigger] agents@[j]).0.0 == j,
                forall|j: int| 0 <= j < 3 && j < agents@.len() ==> (#[trigger] agents@[j]).1 is Buyer,
                forall|j: int| 3 <= j < 6 && j < agents@.len() ==> (#[trigger] agents@[j]).1 is Seller,
                forall|j: int|
                    6 <= j < 16 && j < agents@.len() ==> (#[trigger] agents@[j]).1 is IncBuyer,
                forall|j: int|
                    0 <= j < market.accounts@.len() ==> #[trigger] market.accounts@[j]
                        == simulation_account_value(),
            decreases 10 - i,
        {
            Self::add_agent(
                &mut market,
                &mut agents,
                ReferenceAgent::IncBuyer(
                    IncBuyAgent {
                        bid_size: 1,
                        bid_amount: 2,
                        period: 1,
                        my_id: AgentId::new(0),
                        price: Amount::new(),
                        increment: Amount { as_int: 1 },
                        _ph: core::marker::PhantomData,
                    },
                ),
            );
            i = i + 1;
        }
        let mut i: u64 = 0;
        while i < 10
            invariant
                i <= 10,
                market.inv(),
                market.spec_book().bids().len() == 0,
                market.spec_book().asks().len() == 0,
                market.spec_book().mbids().len() == 0,
                market.spec_book().masks().len() == 0,
                market.house().money.as_int == 0,
                agents@.len() == market.accounts@.len(),
                market.accounts@.len() == 16 + i,
                forall|j: int|
                    0 <= j < agents@.len() ==> (#[trigger] agents@[j]).0.0 == j,
                forall|j: int| 0 <= j < 3 && j < agents@.len() ==> (#[trigger] agents@[j]).1 is Buyer,
                forall|j: int| 3 <= j < 6 && j < agents@.len() ==> (#[trigger] agents@[j]).1 is Seller,
                forall|j: int|
                    6 <= j < 16 && j < agents@.len() ==> (#[trigger] agents@[j]).1 is IncBuyer,
                forall|j: int|
                    16 <= j < agents@.len() ==> (#[trigger] agents@[j]).1 is IncSeller,
                forall|j: int|
                    0 <= j < market.accounts@.len() ==> #[trigger] market.accounts@[j]
                        == simulation_account_value(),
            decreases 10 - i,
        {
            Self::add_agent(
                &mut market,
                &mut agents,
                ReferenceAgent::IncSeller(
                    IncSellAgent {
                        ask_size: 1,
                        ask_amount: 2,
                        period: 1,
                        my_id: AgentId::new(0),
                        price: Amount::new(),
                        increment: Amount { as_int: 1 },
                        _ph: core::marker::PhantomData,
                    },
                ),
            );
            i = i + 1;
        }
        MarketConfiguration {
            market,
            agents,
            history: History::default(),
            market_price: Option::None,
            step: 1,
        }
    }

    /// One simulation step: solicit and admit orders against the previous
    /// step's history, match and settle with the carried-forward market
    /// price as fallback, publish this step's history, carry the price
    /// forward when trades occurred, and clear the book for the next
    /// step.  The sum of account money plus the house's, and the sum of
    /// commodity, are unchanged.
    pub fn step(&mut self) -> (r: Option<Amount>)
        requires
            old(self).market.inv(),
            old(self).market.spec_book().bids().len() == 0,
            old(self).market.spec_book().asks().len() == 0,
            old(self).market.spec_book().mbids().len() == 0,
            old(self).market.spec_book().masks().len() == 0,
            forall|j: int|
                0 <= j < old(self).market.accounts@.len() ==> (#[trigger] old(
                    self,
                ).market.accounts@[j]).reserved_money.as_int == 0 && old(
                    self,
                ).market.accounts@[j].reserved_commodity == 0,
            step_headroom(old(self).market.accounts@, old(self).market.house()),
            old(self).step < u64::MAX,
        ensures
            final(self).market.inv(),
            final(self).market.spec_book().bids().len() == 0,
            final(self).market.spec_book().asks().len() == 0,
            final(self).market.spec_book().mbids().len() == 0,
            final(self).market.spec_book().masks().len() == 0,
            forall|j: int|
                0 <= j < final(self).market.accounts@.len()
                    ==> (#[trigger] final(self).market.accounts@[j]).reserved_money.as_int == 0
                    && final(self).market.accounts@[j].reserved_commodity == 0,
            final(self).market.accounts@.len() == old(self).market.accounts@.len(),
            acc_money_sum(final(self).market.accounts@) + final(self).market.house().money.as_int
                == acc_money_sum(old(self).market.accounts@) + old(
                self,
            ).market.house().money.as_int,
            acc_comm_sum(final(self).market.accounts@) == acc_comm_sum(old(self).market.accounts@),
            final(self).step == old(self).step + 1,
            final(self).history.step == old(self).step,
            final(self).market.house().money.as_int == old(self).market.house().money.as_int
                + crate::market::tx_diff_sum(final(self).history.transactions@),
            final(self).market.house().commodity == old(self).market.house().commodity,
            crate::book::transactions_wf(final(self).history.transactions@),
            forall|i: int|
                0 <= i < final(self).history.transactions@.len()
                    ==> (#[trigger] final(self).history.transactions@[i]).diff.as_int >= 0,
            forall|i: int|
                0 <= i < final(self).history.rejected_orders@.len() ==> {
                    let o = #[trigger] final(self).history.rejected_orders@[i];
                    &&& crate::orders::flat::data_admissible(
                        OrderData { side: o.side, price: o.price, size: o.size },
                    )
                    &&& old(self).market.spec_book().next_id() <= o.id
                    &&& o.id < final(self).market.spec_book().next_id()
                },
            old(self).agents@.len() == 0 ==> final(self).history.transactions@.len() == 0
                && final(self).history.rejected_orders@.len() == 0
                && final(self).history.unfulfilled_orders@.len() == 0
                && final(self).market.house() == old(self).market.house() && forall|j: int|
                0 <= j < old(self).market.accounts@.len()
                    ==> #[trigger] final(self).market.accounts@[j] == old(
                    self,
                ).market.accounts@[j],
            final(self).market_price == (if final(self).history.transactions@.len() > 0
                && crate::market::price_ok(final(self).history.transactions@) {
                crate::market::spec_market_price(final(self).history.transactions@)
            } else {
                old(self).market_price
            }),
            r == final(self).market_price,
    {
        let ghost accts0 = self.market.accounts@;
        proof {
            assert(crate::book::ids_below_next(self.market.spec_book()));
        }
        let rejected = self.market.agents_submit_orders(&mut self.agents, &self.history);
        let ghost madm = self.market;
        proof {
            assert(old(self).market.spec_book().bids() =~= Seq::<
                crate::orders::flat::LimitOrderData,
            >::empty());
            assert(old(self).market.spec_book().asks() =~= Seq::<
                crate::orders::flat::LimitOrderData,
            >::empty());
            assert(old(self).market.spec_book().masks() =~= Seq::<
                crate::orders::flat::MarketOrderData,
            >::empty());
            crate::market::lemma_settle_headroom_from_cover(&self.market, accts0);
        }
        let fallback = match self.market_price {
            Option::Some(p) => if 0 <= p.as_int && p.as_int <= MAX_FALLBACK_PRICE {
                Option::Some(p)
            } else {
                Option::None
            },
            Option::None => Option::None,
        };
        let ghost accts_a = self.market.accounts@;
        let ghost house_a = self.market.house();
        proof {
            crate::sums::lemma_sum_by_pointwise(
                accts_a,
                accts0,
                |a: Account| a.money.as_int as int,
            );
            crate::sums::lemma_sum_by_pointwise(accts_a, accts0, |a: Account| a.commodity as int);
        }
        let transactions = self.market.process_submitted_orders(fallback);
        let ghost mdone = self.market;
        let ghost accts_b = self.market.accounts@;
        let unfulfilled = self.market.all_orders();
        self.history = History {
            step: self.step,
            transactions,
            rejected_orders: rejected,
            unfulfilled_orders: unfulfilled,
        };
        if !self.history.no_transactions() {
            if self.history.price_computable() {
                self.market_price = self.history.market_price();
            }
        }
        self.market.clear_orders();
        self.step = self.step + 1;
        proof {
            crate::sums::lemma_sum_by_pointwise(
                self.market.accounts@,
                accts_b,
                |a: Account| a.money.as_int as int,
            );
            crate::sums::lemma_sum_by_pointwise(
                self.market.accounts@,
                accts_b,
                |a: Account| a.commodity as int,
            );
            if old(self).agents@.len() == 0 {
                // with no agents the book stays empty, so nothing trades,
                // nothing is rejected and nothing remains
                crate::book::lemma_tx_sums_nonneg(transactions@);
                crate::book::lemma_market_size_sum_nonneg(mdone.spec_book().masks());
                crate::book::lemma_market_size_sum_nonneg(mdone.spec_book().mbids());
                crate::book::lemma_limit_size_sum_nonneg(mdone.spec_book().bids());
                crate::book::lemma_limit_size_sum_nonneg(mdone.spec_book().asks());
                assert(crate::book::tx_size_sum(transactions@) == 0);
                if transactions@.len() > 0 {
                    crate::sums::lemma_sum_by_element_bound(
                        transactions@,
                        0,
                        |t: Transaction| t.size as int,
                    );
                    assert(transactions@[0].wf());
                    assert(false);
                }
                crate::book::lemma_limit_empty_of_zero(mdone.spec_book().bids());
                crate::book::lemma_limit_empty_of_zero(mdone.spec_book().asks());
                crate::book::lemma_market_empty_of_zero(mdone.spec_book().mbids());
                crate::book::lemma_market_empty_of_zero(mdone.spec_book().masks());
                assert(self.history.unfulfilled_orders@.len() == 0);
                assert forall|j: int|
                    0 <= j < old(self).market.accounts@.len() implies #[trigger] self.market.accounts@[j]
                    == old(self).market.accounts@[j] by {
                    assert(self.market.accounts@[j] == accts_b[j]);
                    assert(accts_b == crate::market::spec_settle_list(
                        madm.accounts@,
                        madm.owners(),
                        transactions@,
                    ));
                    assert(accts_b[j] == madm.accounts@[j]);
                    assert(madm.accounts@[j] == old(self).market.accounts@[j]);
                }
            }
        }
        self.market_price
    }
}

impl Default for MarketConfiguration {
    fn default() -> (r: Self)
        ensures
            r.market.inv(),
            r.step == 1,
    {
        Self::new()
    }
}

/// The standard simulation account, as a value.
pub open spec fn simulation_account_value() -> Account {
    Account {
        commodity: 100,
        money: Amount { as_int: 1000 },
        reserved_money: Amount { as_int: 0 },
        reserved_commodity: 0,
        dept: Amount { as_int: 0 },
    }
}

/// The display name of the simulated market.
fn new_strlit_name() -> (r: String) {
    String::from_str("test")
}

} // verus!
