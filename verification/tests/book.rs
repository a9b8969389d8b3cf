//! Matching-engine behaviour on concrete books.

use market::amount::Amount;
use market::book::OrderBook;
use market::book::Transaction;
use market::orders::flat::{OrderData, OrderSide};

fn submit(ob: &mut OrderBook, text: &[u8]) {
    let data = OrderData::parse(text).unwrap();
    let order = ob.new_order_checked(data).unwrap();
    ob.add_order(order);
}

#[test]
fn match_1v1_exact() {
    let mut ob = OrderBook::default();

    submit(&mut ob, b"A:1:1");
    submit(&mut ob, b"B:1:1");

    let transactions = ob.match_all_limit();

    assert!(ob.limit_asks().is_empty());
    assert!(ob.limit_bids().is_empty());
    assert_eq!(transactions.len(), 1);
    assert_eq!(
        transactions.first(),
        Some(&Transaction {
            bid_id: 1,
            ask_id: 0,
            size: 1,
            bid_loss: Amount { as_int: 1 },
            ask_gain: Amount { as_int: 1 },
            diff: Amount { as_int: 0 }
        })
    );
}

#[test]
fn match_1v1_fail() {
    let mut ob = OrderBook::default();

    let orders = [
        (OrderSide::Ask, Amount { as_int: 2 }, 1),
        (OrderSide::Bid, Amount { as_int: 1 }, 1),
    ];
    for (side, price, size) in orders {
        let order = ob.new_order_raw(side, Some(price), size);
        ob.add_order(order);
    }

    let transactions = ob.match_all_limit();

    assert_eq!(ob.limit_asks().len(), 1);
    assert_eq!(ob.limit_bids().len(), 1);
    assert_eq!(transactions.len(), 0);
}

#[test]
fn match_1v1_diff() {
    let mut ob = OrderBook::default();

    let orders = [
        (OrderSide::Ask, Amount { as_int: 1 }, 1),
        (OrderSide::Bid, Amount { as_int: 2 }, 1),
    ];
    for (side, price, size) in orders {
        let order = ob.new_order_raw(side, Some(price), size);
        ob.add_order(order);
    }

    let transactions = ob.match_all_limit();

    assert_eq!(ob.limit_asks().len(), 0);
    assert_eq!(ob.limit_bids().len(), 0);
    assert_eq!(transactions.len(), 1);
    assert_eq!(
        transactions.first(),
        Some(&Transaction {
            bid_id: 1,
            ask_id: 0,
            size: 1,
            bid_loss: Amount { as_int: 2 },
            ask_gain: Amount { as_int: 1 },
            diff: Amount { as_int: 1 }
        })
    );
}

#[test]
fn match_1v2_exact() {
    let mut ob = OrderBook::default();

    let orders = [
        (OrderSide::Ask, Amount { as_int: 1 }, 1),
        (OrderSide::Ask, Amount { as_int: 1 }, 1),
        (OrderSide::Bid, Amount { as_int: 1 }, 2),
    ];
    for (side, price, size) in orders {
        let order = ob.new_order_raw(side, Some(price), size);
        ob.add_order(order);
    }

    let transactions = ob.match_all_limit();

    assert_eq!(ob.limit_asks().len(), 0);
    assert_eq!(ob.limit_bids().len(), 0);
    assert_eq!(transactions.len(), 2);

    assert_eq!(
        transactions.first(),
        Some(&Transaction {
            bid_id: 2,
            ask_id: 0,
            size: 1,
            bid_loss: Amount { as_int: 1 },
            ask_gain: Amount { as_int: 1 },
            diff: Amount { as_int: 0 }
        })
    );

    assert_eq!(
        transactions.get(1),
        Some(&Transaction {
            bid_id: 2,
            ask_id: 1,
            size: 1,
            bid_loss: Amount { as_int: 1 },
            ask_gain: Amount { as_int: 1 },
            diff: Amount { as_int: 0 }
        })
    );
}

#[test]
fn match_2v1_exact() {
    let mut ob = OrderBook::default();

    let orders = [
        (OrderSide::Ask, Amount { as_int: 1 }, 2),
        (OrderSide::Bid, Amount { as_int: 1 }, 1),
        (OrderSide::Bid, Amount { as_int: 1 }, 1),
    ];
    for (side, price, size) in orders {
        let order = ob.new_order_raw(side, Some(price), size);
        ob.add_order(order);
    }

    let transactions = ob.match_all_limit();

    assert_eq!(ob.limit_asks().len(), 0);
    assert_eq!(ob.limit_bids().len(), 0);
    assert_eq!(transactions.len(), 2);

    assert_eq!(
        transactions.first(),
        Some(&Transaction {
            bid_id: 1,
            ask_id: 0,
            size: 1,
            bid_loss: Amount { as_int: 1 },
            ask_gain: Amount { as_int: 1 },
            diff: Amount { as_int: 0 }
        })
    );

    assert_eq!(
        transactions.get(1),
        Some(&Transaction {
            bid_id: 2,
            ask_id: 0,
            size: 1,
            bid_loss: Amount { as_int: 1 },
            ask_gain: Amount { as_int: 1 },
            diff: Amount { as_int: 0 }
        })
    );
}

#[test]
fn match_all_limit_idempotent() {
    let mut ob = OrderBook::default();

    for text in [b"A:3:2", b"A:2:1", b"B:2:2", b"B:1:1", b"A:2:4", b"B:5:1"] {
        submit(&mut ob, text);
    }

    let (_, again) = ob.match_all_limit_twice();

    assert_eq!(again.len(), 0);

    let remaining = ob.all_orders();
    let once_more = ob.match_all_limit();
    assert_eq!(once_more.len(), 0);
    assert_eq!(remaining, ob.all_orders());
}

#[test]
fn market_matches_all_limits() {
    let mut ob = OrderBook::default();

    // limit bids of total size 3, limit asks of total size 4
    for text in [b"B:2:1", b"B:3:2", b"A:5:3", b"A:4:1"] {
        submit(&mut ob, text as &[u8]);
    }
    // one market ask absorbing the bids, one market bid absorbing the asks
    submit(&mut ob, b"A:3");
    submit(&mut ob, b"B:4");

    ob.match_all_market(None);

    assert!(ob.all_orders().is_empty());
}

#[test]
fn market_fallback_price() {
    let mut ob = OrderBook::default();

    submit(&mut ob, b"B:1");
    submit(&mut ob, b"A:1");

    let transactions = ob.match_all_market(Some(Amount { as_int: 5 }));

    assert_eq!(transactions.len(), 1);
    let t = transactions[0];
    assert_eq!(t.bid_loss, Amount { as_int: 5 });
    assert_eq!(t.ask_gain, Amount { as_int: 5 });
    assert_eq!(t.diff, Amount { as_int: 0 });
    assert!(ob.all_orders().is_empty());
}

#[test]
fn market_orders_match_at_limit_price() {
    let mut ob = OrderBook::default();

    // a market ask takes the best limit bid's price: no house difference
    submit(&mut ob, b"B:7:2");
    submit(&mut ob, b"A:2");

    let transactions = ob.match_all_market(None);

    assert_eq!(transactions.len(), 1);
    let t = transactions[0];
    assert_eq!(t.size, 2);
    assert_eq!(t.bid_loss, Amount { as_int: 14 });
    assert_eq!(t.ask_gain, Amount { as_int: 14 });
    assert_eq!(t.diff, Amount { as_int: 0 });
}

#[test]
fn partial_fill_keeps_residue() {
    let mut ob = OrderBook::default();

    submit(&mut ob, b"A:1:5");
    submit(&mut ob, b"B:1:2");

    let transactions = ob.match_all_limit();

    assert_eq!(transactions.len(), 1);
    assert_eq!(transactions[0].size, 2);
    let asks = ob.limit_asks();
    assert_eq!(asks.len(), 1);
    assert_eq!(asks[0].data.size, 3);
    assert!(ob.limit_bids().is_empty());
}

#[test]
fn priority_order_is_price_then_age() {
    let mut ob = OrderBook::default();

    // the 3-priced bid outranks the older 2-priced one
    submit(&mut ob, b"B:2:1");
    submit(&mut ob, b"B:3:1");
    submit(&mut ob, b"A:1:1");

    let transactions = ob.match_all_limit();

    assert_eq!(transactions.len(), 1);
    assert_eq!(transactions[0].bid_id, 1);
    assert_eq!(transactions[0].bid_loss, Amount { as_int: 3 });
}

#[test]
fn age_breaks_price_ties() {
    let mut ob = OrderBook::default();

    submit(&mut ob, b"B:5:1");
    ob.time_inc();
    submit(&mut ob, b"B:5:1");
    submit(&mut ob, b"A:1:1");

    let transactions = ob.match_all_limit();

    // both bids pay 5; the one admitted in the earlier tick trades first
    assert_eq!(transactions.len(), 1);
    assert_eq!(transactions[0].bid_id, 0);
}

#[test]
fn from_orders_builds_a_book() {
    let mut scratch = OrderBook::default();
    let a = scratch.new_order_raw(OrderSide::Ask, Some(Amount { as_int: 2 }), 1);
    let b = scratch.new_order_raw(OrderSide::Bid, Some(Amount { as_int: 3 }), 1);
    let m = scratch.new_order_raw(OrderSide::Bid, None, 4);

    let ob = OrderBook::from_orders(vec![a, b, m]);

    assert_eq!(ob.limit_asks().len(), 1);
    assert_eq!(ob.limit_bids().len(), 1);
    assert_eq!(ob.market_bids().len(), 1);
    assert_eq!(ob.market_asks().len(), 0);
    assert_eq!(ob.all_orders().len(), 3);
}

#[test]
fn empty_book_matches_nothing() {
    let mut ob = OrderBook::default();

    assert_eq!(ob.match_all_limit().len(), 0);
    assert_eq!(ob.match_all_market(None).len(), 0);
    assert_eq!(ob.match_all_market(Some(Amount { as_int: 5 })).len(), 0);
    assert!(ob.all_orders().is_empty());
}

#[test]
fn clearing_empties_every_queue() {
    let mut ob = OrderBook::default();
    for text in [b"A:1:1", b"B:1:1"] {
        submit(&mut ob, text);
    }
    submit(&mut ob, b"A:4");
    submit(&mut ob, b"B:2");

    ob.clear_orders();

    assert!(ob.all_orders().is_empty());
    // the id counter keeps running across a clear
    let next = ob.new_order_raw(OrderSide::Bid, None, 1);
    assert_eq!(next.id, 4);
}
