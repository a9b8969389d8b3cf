//! The order model: parsing, admission checks, and the money type.

use market::account::Account;
use market::amount::Amount;
use market::book::OrderBook;
use market::market::History;
use market::orders::flat::{OrderData, OrderSide};

#[test]
fn parse_limit_order() {
    let data = OrderData::parse(b"A:3:7").unwrap();
    assert_eq!(data.side, OrderSide::Ask);
    assert_eq!(data.price, Some(Amount { as_int: 3 }));
    assert_eq!(data.size, 7);

    let data = OrderData::parse(b"B:120:4").unwrap();
    assert_eq!(data.side, OrderSide::Bid);
    assert_eq!(data.price, Some(Amount { as_int: 120 }));
    assert_eq!(data.size, 4);
}

#[test]
fn parse_market_order() {
    let data = OrderData::parse(b"B:9").unwrap();
    assert_eq!(data.side, OrderSide::Bid);
    assert_eq!(data.price, None);
    assert_eq!(data.size, 9);
}

#[test]
fn parse_rejects_malformed_text() {
    assert!(OrderData::parse(b"").is_none());
    assert!(OrderData::parse(b"A").is_none());
    assert!(OrderData::parse(b"X:1:1").is_none());
    assert!(OrderData::parse(b"A:1:1:1").is_none());
    assert!(OrderData::parse(b"A::1").is_none());
    assert!(OrderData::parse(b"A:x:1").is_none());
    assert!(OrderData::parse(b"A:1:").is_none());
    assert!(OrderData::parse(b"A:99999999999999999999:1").is_none());
}

#[test]
fn admission_drops_malformed_intents() {
    let mut ob = OrderBook::default();

    // a zero or negative size, or a non-positive price, never becomes an
    // order and consumes no id
    assert!(ob
        .new_order_checked(OrderData {
            side: OrderSide::Bid,
            price: Some(Amount { as_int: 1 }),
            size: 0,
        })
        .is_none());
    assert!(ob
        .new_order_checked(OrderData {
            side: OrderSide::Ask,
            price: Some(Amount { as_int: 0 }),
            size: 1,
        })
        .is_none());

    let order = ob
        .new_order_checked(OrderData {
            side: OrderSide::Ask,
            price: Some(Amount { as_int: 2 }),
            size: 3,
        })
        .unwrap();
    assert_eq!(order.id, 0);
    assert_eq!(order.size, 3);
}

#[test]
fn amount_arithmetic() {
    let a = Amount { as_int: 7 };
    let b = Amount { as_int: 5 };
    assert_eq!(a.add(b), Amount { as_int: 12 });
    assert_eq!(a.sub(b), Amount { as_int: 2 });
    assert_eq!(a.mul(3), Amount { as_int: 21 });
    assert_eq!(Amount::new(), Amount { as_int: 0 });
    assert_eq!(Amount::default(), Amount { as_int: 0 });
}

#[test]
fn side_negation() {
    assert_eq!(OrderSide::Bid.not(), OrderSide::Ask);
    assert_eq!(OrderSide::Ask.not(), OrderSide::Bid);
}

#[test]
fn market_price_is_mean_of_mids() {
    let mut ob = OrderBook::default();
    for text in [b"A:2:1", b"A:6:1", b"B:6:1", b"B:6:1"] {
        let data = OrderData::parse(text).unwrap();
        let order = ob.new_order_checked(data).unwrap();
        ob.add_order(order);
    }
    let transactions = ob.match_all_limit();
    assert_eq!(transactions.len(), 2);

    let history = History {
        step: 1,
        transactions,
        rejected_orders: Vec::new(),
        unfulfilled_orders: Vec::new(),
    };
    assert!(history.price_computable());
    // mids 4 and 6 give a mean price of 5
    assert_eq!(history.market_price(), Some(Amount { as_int: 5 }));
    assert!(!history.no_transactions());
}

#[test]
fn reservable_checks_both_balances() {
    let account = Account {
        commodity: 5,
        money: Amount { as_int: 10 },
        reserved_money: Amount { as_int: 2 },
        reserved_commodity: 1,
        dept: Amount { as_int: 0 },
    };

    // asks of total size 4 fit next to the one reserved unit
    let orders = vec![
        OrderData { side: OrderSide::Ask, price: None, size: 4 },
        OrderData { side: OrderSide::Bid, price: Some(Amount { as_int: 2 }), size: 4 },
    ];
    assert!(account.reservable(&orders));

    // one more unit of inventory would not fit
    let orders = vec![
        OrderData { side: OrderSide::Ask, price: None, size: 5 },
    ];
    assert!(!account.reservable(&orders));

    // nine in notional exceeds the eight uncommitted
    let orders = vec![
        OrderData { side: OrderSide::Bid, price: Some(Amount { as_int: 3 }), size: 3 },
    ];
    assert!(!account.reservable(&orders));
}

#[test]
fn starting_account_balances() {
    let acc = Account::starting_account();
    assert_eq!(acc.commodity, 10);
    assert_eq!(acc.money, Amount { as_int: 10 });
    assert_eq!(acc.reserved_money, Amount { as_int: 0 });
    assert_eq!(acc.reserved_commodity, 0);
}

#[test]
fn parse_accepts_largest_number() {
    let data = OrderData::parse(b"A:9223372036854775807:1").unwrap();
    assert_eq!(data.price, Some(Amount { as_int: i64::MAX }));
    assert!(OrderData::parse(b"A:9223372036854775808:1").is_none());
}

#[test]
fn reservable_of_no_orders_is_free() {
    let account = Account::starting_account();
    assert!(account.reservable(&Vec::new()));
}
