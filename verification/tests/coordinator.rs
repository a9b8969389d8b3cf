//! Coordinator behaviour: registration, reservation, settlement and the
//! per-step loop, driven by small custom agents.

use market::account::Account;
use market::agent::{Agent, AgentId};
use market::agents::{IncBuyAgent, IncSellAgent};
use market::amount::Amount;
use market::market::{History, Market, MarketInfo};
use market::orders::flat::OrderData;
use market::orders::limit::LimitOrder;

enum CommodityType {
    Unit,
}

struct ProducerAgent {}

impl Agent for ProducerAgent {
    type CommodityType = CommodityType;

    fn setup(&mut self, _id: AgentId, _info: &MarketInfo<CommodityType>) {}

    fn produce_orders(
        &mut self,
        _account: &Account,
        _info: &MarketInfo<CommodityType>,
        _history: &History,
    ) -> Vec<OrderData> {
        vec![
            OrderData::parse(b"A:1:1").unwrap(),
            OrderData::parse(b"A:2:1").unwrap(),
            OrderData::parse(b"A:3:1").unwrap(),
        ]
    }
}

struct ConsumerAgent {}

impl Agent for ConsumerAgent {
    type CommodityType = CommodityType;

    fn setup(&mut self, _id: AgentId, _info: &MarketInfo<CommodityType>) {}

    fn produce_orders(
        &mut self,
        _account: &Account,
        _info: &MarketInfo<CommodityType>,
        _history: &History,
    ) -> Vec<OrderData> {
        vec![
            OrderData::parse(b"B:2:1").unwrap(),
            OrderData::parse(b"B:4:1").unwrap(),
        ]
    }
}

enum EitherAgent {
    Producer(ProducerAgent),
    Consumer(ConsumerAgent),
}

impl Agent for EitherAgent {
    type CommodityType = CommodityType;

    fn setup(&mut self, id: AgentId, info: &MarketInfo<CommodityType>) {
        match self {
            EitherAgent::Producer(a) => a.setup(id, info),
            EitherAgent::Consumer(a) => a.setup(id, info),
        }
    }

    fn produce_orders(
        &mut self,
        account: &Account,
        info: &MarketInfo<CommodityType>,
        history: &History,
    ) -> Vec<OrderData> {
        match self {
            EitherAgent::Producer(a) => a.produce_orders(account, info, history),
            EitherAgent::Consumer(a) => a.produce_orders(account, info, history),
        }
    }
}

enum IncAgent {
    Buyer(IncBuyAgent<CommodityType>),
    Seller(IncSellAgent<CommodityType>),
}

impl Agent for IncAgent {
    type CommodityType = CommodityType;

    fn setup(&mut self, id: AgentId, info: &MarketInfo<CommodityType>) {
        match self {
            IncAgent::Buyer(a) => a.setup(id, info),
            IncAgent::Seller(a) => a.setup(id, info),
        }
    }

    fn produce_orders(
        &mut self,
        account: &Account,
        info: &MarketInfo<CommodityType>,
        history: &History,
    ) -> Vec<OrderData> {
        match self {
            IncAgent::Buyer(a) => a.produce_orders(account, info, history),
            IncAgent::Seller(a) => a.produce_orders(account, info, history),
        }
    }
}

fn total_money(market: &Market<CommodityType>) -> i64 {
    let mut sum = market.market_account.money.as_int;
    for acc in market.accounts.iter() {
        sum += acc.money.as_int;
    }
    sum
}

fn total_commodity(market: &Market<CommodityType>) -> i64 {
    let mut sum: i64 = 0;
    for acc in market.accounts.iter() {
        sum += acc.commodity;
    }
    sum
}

#[test]
fn run() {
    let mut market = Market::new(MarketInfo {
        name: String::from("test"),
        commodity: CommodityType::Unit,
    });

    let mut agents = Vec::new();
    let mut consumer = EitherAgent::Consumer(ConsumerAgent {});
    let id = market.register_with_default_acc();
    consumer.setup(id, &market.info);
    agents.push((id, consumer));
    let mut producer = EitherAgent::Producer(ProducerAgent {});
    let id = market.register_with_default_acc();
    producer.setup(id, &market.info);
    agents.push((id, producer));

    // the producer needs inventory to reserve against
    market.accounts[1].commodity = 30;
    market.accounts[0].money = Amount { as_int: 40 };

    let money_before = total_money(&market);
    let commodity_before = total_commodity(&market);

    let mut history = History::default();

    for step in 1..=10u64 {
        println!("history: {}", history.transactions.len());

        let rejected_orders = market.agents_submit_orders(&mut agents, &history);
        let price = if history.price_computable() {
            history.market_price()
        } else {
            None
        };
        let transactions = market.process_submitted_orders(price);
        let unfulfilled_orders = market.all_orders();

        history = History {
            step,
            transactions,
            rejected_orders,
            unfulfilled_orders,
        };

        market.clear_orders();

        assert_eq!(total_money(&market), money_before);
        assert_eq!(total_commodity(&market), commodity_before);

        // with limit orders only, every balance stays non-negative at rest
        for acc in market.accounts.iter() {
            assert!(acc.money.as_int >= 0);
            assert!(acc.commodity >= 0);
            assert_eq!(acc.reserved_money, Amount { as_int: 0 });
            assert_eq!(acc.reserved_commodity, 0);
        }
    }

    println!("history: {}", history.transactions.len());
}

#[test]
fn reservation_gates_admission() {
    let mut market = Market::new(MarketInfo {
        name: String::from("test"),
        commodity: CommodityType::Unit,
    });
    let id = market.register_with_acc(Account {
        commodity: 1,
        money: Amount { as_int: 5 },
        reserved_money: Amount { as_int: 0 },
        reserved_commodity: 0,
        dept: Amount { as_int: 0 },
    });

    // a bid worth 6 exceeds the 5 in cash and is refused
    let order = {
        let data = OrderData::parse(b"B:3:2").unwrap();
        market.book.new_order_checked(data).unwrap()
    };
    let refused = market.submit_order(&id, order);
    assert!(refused.is_some());
    assert_eq!(market.accounts[0].reserved_money, Amount { as_int: 0 });

    // a bid worth 4 fits and is reserved
    let order = {
        let data = OrderData::parse(b"B:2:2").unwrap();
        market.book.new_order_checked(data).unwrap()
    };
    let accepted = market.submit_order(&id, order);
    assert!(accepted.is_none());
    assert_eq!(market.accounts[0].reserved_money, Amount { as_int: 4 });

    // an ask of size 2 exceeds the single unit of inventory
    let order = {
        let data = OrderData::parse(b"A:1:2").unwrap();
        market.book.new_order_checked(data).unwrap()
    };
    let refused = market.submit_order(&id, order);
    assert!(refused.is_some());
    assert_eq!(market.accounts[0].reserved_commodity, 0);

    // a market bid reserves nothing and is always accepted
    let order = {
        let data = OrderData::parse(b"B:1").unwrap();
        market.book.new_order_checked(data).unwrap()
    };
    let accepted = market.submit_order(&id, order);
    assert!(accepted.is_none());
    assert_eq!(market.accounts[0].reserved_money, Amount { as_int: 4 });
}

#[test]
fn settlement_moves_balances() {
    let mut market = Market::new(MarketInfo {
        name: String::from("test"),
        commodity: CommodityType::Unit,
    });
    let buyer = market.register_with_acc(Account {
        commodity: 0,
        money: Amount { as_int: 10 },
        reserved_money: Amount { as_int: 0 },
        reserved_commodity: 0,
        dept: Amount { as_int: 0 },
    });
    let seller = market.register_with_acc(Account {
        commodity: 4,
        money: Amount { as_int: 0 },
        reserved_money: Amount { as_int: 0 },
        reserved_commodity: 0,
        dept: Amount { as_int: 0 },
    });

    let ask = {
        let data = OrderData::parse(b"A:2:3").unwrap();
        market.book.new_order_checked(data).unwrap()
    };
    assert!(market.submit_order(&seller, ask).is_none());
    let bid = {
        let data = OrderData::parse(b"B:3:3").unwrap();
        market.book.new_order_checked(data).unwrap()
    };
    assert!(market.submit_order(&buyer, bid).is_none());

    let transactions = market.process_submitted_orders(None);

    assert_eq!(transactions.len(), 1);
    let t = transactions[0];
    assert_eq!(t.size, 3);
    assert_eq!(t.bid_loss, Amount { as_int: 9 });
    assert_eq!(t.ask_gain, Amount { as_int: 6 });
    assert_eq!(t.diff, Amount { as_int: 3 });

    // the bidder paid 9 for 3 units, the asker got 6, the house kept 3
    assert_eq!(market.accounts[0].money, Amount { as_int: 1 });
    assert_eq!(market.accounts[0].commodity, 3);
    assert_eq!(market.accounts[1].money, Amount { as_int: 6 });
    assert_eq!(market.accounts[1].commodity, 1);
    assert_eq!(market.market_account.money, Amount { as_int: 3 });
}

#[test]
fn agent_step() {
    let mut market = Market::new(MarketInfo {
        name: String::from("test"),
        commodity: CommodityType::Unit,
    });

    let mut agents = Vec::new();
    let mut seller = IncAgent::Seller(IncSellAgent {
        ask_size: 1,
        ask_amount: 2,
        period: 1,
        my_id: AgentId::new(0),
        price: Amount { as_int: 1 },
        increment: Amount { as_int: 1 },
        _ph: std::marker::PhantomData,
    });
    let id = market.register_with_acc(Account {
        commodity: 50,
        money: Amount { as_int: 0 },
        reserved_money: Amount { as_int: 0 },
        reserved_commodity: 0,
        dept: Amount { as_int: 0 },
    });
    seller.setup(id, &market.info);
    agents.push((id, seller));

    let mut buyer = IncAgent::Buyer(IncBuyAgent {
        bid_size: 1,
        bid_amount: 2,
        period: 1,
        my_id: AgentId::new(0),
        price: Amount { as_int: 1 },
        increment: Amount { as_int: 1 },
        _ph: std::marker::PhantomData,
    });
    let id = market.register_with_acc(Account {
        commodity: 0,
        money: Amount { as_int: 500 },
        reserved_money: Amount { as_int: 0 },
        reserved_commodity: 0,
        dept: Amount { as_int: 0 },
    });
    buyer.setup(id, &market.info);
    agents.push((id, buyer));

    let money_before = total_money(&market);
    let commodity_before = total_commodity(&market);

    let mut any_transactions: usize = 0;
    for _ in 0..10 {
        assert!(market.check_step_headroom());
        let n = market.step(&mut agents);
        any_transactions += n;

        assert_eq!(total_money(&market), money_before);
        assert_eq!(total_commodity(&market), commodity_before);
    }

    assert!(any_transactions > 0);
}

#[test]
fn owner_maps_orders_to_agents() {
    let mut market = Market::new(MarketInfo {
        name: String::from("test"),
        commodity: CommodityType::Unit,
    });
    let id = market.register_with_acc(Account {
        commodity: 0,
        money: Amount { as_int: 10 },
        reserved_money: Amount { as_int: 0 },
        reserved_commodity: 0,
        dept: Amount { as_int: 0 },
    });

    let data = OrderData::parse(b"B:2:2").unwrap();
    let order = market.book.new_order_checked(data).unwrap();
    assert!(market.submit_order(&id, order).is_none());

    let typed = LimitOrder::of_order(&order).unwrap();
    assert_eq!(market.owner(&typed), Some(id));

    let unknown = {
        let data = OrderData::parse(b"B:1:1").unwrap();
        let o = market.book.new_order_checked(data).unwrap();
        LimitOrder::of_order(&o).unwrap()
    };
    assert_eq!(market.owner(&unknown), None);
}
