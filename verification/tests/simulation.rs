//! The ready-made simulation and a mixed buyer/seller run.

use market::account::Account;
use market::agent::{Agent, AgentId};
use market::agents::{BuyAgent, SellAgent};
use market::amount::Amount;
use market::market::{History, Market, MarketInfo};
use market::orders::flat::OrderData;
use market::simulation::{CommodityType, MarketConfiguration};

enum FixedAgent {
    Buyer(BuyAgent<CommodityType>),
    Seller(SellAgent<CommodityType>),
}

impl Agent for FixedAgent {
    type CommodityType = CommodityType;

    fn setup(&mut self, id: AgentId, info: &MarketInfo<CommodityType>) {
        match self {
            FixedAgent::Buyer(a) => a.setup(id, info),
            FixedAgent::Seller(a) => a.setup(id, info),
        }
    }

    fn produce_orders(
        &mut self,
        account: &Account,
        info: &MarketInfo<CommodityType>,
        history: &History,
    ) -> Vec<OrderData> {
        match self {
            FixedAgent::Buyer(a) => a.produce_orders(account, info, history),
            FixedAgent::Seller(a) => a.produce_orders(account, info, history),
        }
    }
}

#[test]
fn lib_run() {
    let mut market = Market::new(MarketInfo {
        name: String::from("test"),
        commodity: CommodityType::Unit,
    });

    let mut agents = Vec::new();
    let mut buy_agent = FixedAgent::Buyer(BuyAgent {
        bid_size: 1,
        bid_amount: 2,
        period: 2,
        innate_price: Some(Amount { as_int: 10 }),
        _ph: std::marker::PhantomData,
    });
    let buyer_id = market.register_with_default_acc();
    buy_agent.setup(buyer_id, &market.info);
    agents.push((buyer_id, buy_agent));

    let mut sell_agent = FixedAgent::Seller(SellAgent {
        ask_size: 1,
        ask_amount: 2,
        period: 2,
        innate_price: Some(Amount { as_int: 8 }),
        _ph: std::marker::PhantomData,
    });
    let seller_id = market.register_with_default_acc();
    sell_agent.setup(seller_id, &market.info);
    agents.push((seller_id, sell_agent));

    market.accounts[buyer_id.0 as usize].money = market.accounts[buyer_id.0 as usize]
        .money
        .add(Amount { as_int: 30 });
    market.accounts[seller_id.0 as usize].commodity += 20;

    let mut history = History::default();
    let mut market_price = None;

    for step in 1..=10u64 {
        let bidder_money = market.accounts[buyer_id.0 as usize].money.as_int;
        let asker_comm = market.accounts[seller_id.0 as usize].commodity;

        println!("history: {}", history.transactions.len());
        println!("-------");

        let rejected_orders = market.agents_submit_orders(&mut agents, &history);
        let transactions = market.process_submitted_orders(market_price);
        let unfulfilled_orders = market.all_orders();

        history = History {
            step,
            transactions,
            rejected_orders,
            unfulfilled_orders,
        };

        if !history.no_transactions() && history.price_computable() {
            market_price = history.market_price()
        }

        println!(
            "market price: {}",
            market_price.map_or(String::from("?"), |x| x.as_int.to_string())
        );

        market.clear_orders();

        println!(
            "> buyer money: {bidder_money}->{:?}",
            market.accounts[buyer_id.0 as usize].money.as_int
        );
        println!(
            "> seller comm: {asker_comm}->{:?}",
            market.accounts[seller_id.0 as usize].commodity
        );

        market.accounts[buyer_id.0 as usize].money = market.accounts[buyer_id.0 as usize]
            .money
            .add(Amount { as_int: 5 });
        market.accounts[seller_id.0 as usize].commodity += 2;
    }
}

#[test]
fn incremental_run() {
    let mut conf = MarketConfiguration::new();
    for _ in 1..=10 {
        let market_price = conf.step();

        println!(
            "market price: {}",
            market_price.map_or(String::from("?"), |x| x.as_int.to_string())
        );
    }
}

#[test]
fn configuration_conserves_balances() {
    let mut conf = MarketConfiguration::new();

    let total_money = |conf: &MarketConfiguration| {
        let mut sum = conf.market.market_account.money.as_int;
        for acc in conf.market.accounts.iter() {
            sum += acc.money.as_int;
        }
        sum
    };
    let total_commodity = |conf: &MarketConfiguration| {
        let mut sum: i64 = 0;
        for acc in conf.market.accounts.iter() {
            sum += acc.commodity;
        }
        sum
    };

    let money_before = total_money(&conf);
    let commodity_before = total_commodity(&conf);
    assert_eq!(money_before, 26 * 1000);
    assert_eq!(commodity_before, 26 * 100);

    let mut traded = false;
    for _ in 1..=10 {
        conf.step();
        assert_eq!(total_money(&conf), money_before);
        assert_eq!(total_commodity(&conf), commodity_before);
        if !conf.history.no_transactions() {
            traded = true;
        }
    }
    assert!(traded);
}
