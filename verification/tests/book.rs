use order_infra::order::{OrderType, Price, SingleOrder};
use order_infra::order_book::{OrderBook, OrderNotFound, Trade};

fn order(time: i32, price_ticks: u64, size: i32, direction: OrderType) -> SingleOrder {
    SingleOrder {
        order_time: time,
        participant_code: "BOFASEC".to_string(),
        security_name: "AAPL".to_string(),
        price: Price { ticks: price_ticks },
        size,
        direction,
    }
}

fn ticks(units: u64) -> u64 {
    units * 10000
}

#[test]
fn add_order_mints_increasing_ids() {
    let mut book = OrderBook::new();
    let a = book.add_order(order(1, ticks(50), 10, OrderType::BUY));
    let b = book.add_order(order(2, ticks(51), 10, OrderType::SELL));
    let c = book.add_order(order(3, ticks(49), 10, OrderType::BUY));
    assert_eq!((a, b, c), (0, 1, 2));
}

#[test]
fn peek_best_returns_numerically_best_price() {
    let mut book = OrderBook::new();
    book.add_order(order(1, ticks(50), 10, OrderType::BUY));
    book.add_order(order(2, ticks(52), 10, OrderType::BUY));
    book.add_order(order(3, ticks(51), 10, OrderType::BUY));
    let best = book.peek_best(OrderType::BUY).unwrap();
    assert_eq!(best.order.price, Price { ticks: ticks(52) });

    book.add_order(order(4, ticks(20), 10, OrderType::SELL));
    book.add_order(order(5, ticks(19), 10, OrderType::SELL));
    book.add_order(order(6, ticks(21), 10, OrderType::SELL));
    let best = book.peek_best(OrderType::SELL).unwrap();
    assert_eq!(best.order.price, Price { ticks: ticks(19) });
}

#[test]
fn equal_prices_rank_by_smaller_time() {
    let mut book = OrderBook::new();
    book.add_order(order(9, ticks(50), 10, OrderType::BUY));
    book.add_order(order(4, ticks(50), 10, OrderType::BUY));
    book.add_order(order(7, ticks(50), 10, OrderType::BUY));
    let best = book.peek_best(OrderType::BUY).unwrap();
    assert_eq!(best.order.order_time, 4);
}

#[test]
fn equal_price_and_time_rank_by_earliest_insertion() {
    let mut book = OrderBook::new();
    let first = book.add_order(order(5, ticks(50), 10, OrderType::BUY));
    let _second = book.add_order(order(5, ticks(50), 10, OrderType::BUY));
    let best = book.peek_best(OrderType::BUY).unwrap();
    assert_eq!(best.id, first);
}

#[test]
fn peek_best_of_an_empty_side_is_none() {
    let book = OrderBook::new();
    assert!(book.peek_best(OrderType::BUY).is_none());
    assert!(book.peek_best(OrderType::SELL).is_none());
}

#[test]
fn cancel_returns_the_resting_snapshot() {
    let mut book = OrderBook::new();
    let id = book.add_order(order(1, ticks(50), 10, OrderType::BUY));
    let got = book.cancel_order(id).unwrap();
    assert_eq!(got, order(1, ticks(50), 10, OrderType::BUY));
    assert!(book.peek_best(OrderType::BUY).is_none());
}

#[test]
fn cancel_of_unknown_id_reports_not_found_and_mutates_nothing() {
    let mut book = OrderBook::new();
    let id = book.add_order(order(1, ticks(50), 10, OrderType::BUY));
    assert_eq!(book.cancel_order(99), Err(OrderNotFound));
    let best = book.peek_best(OrderType::BUY).unwrap();
    assert_eq!(best.id, id);
    assert_eq!(best.order.size, 10);
}

#[test]
fn second_cancel_of_the_same_id_fails() {
    let mut book = OrderBook::new();
    let id = book.add_order(order(1, ticks(50), 10, OrderType::BUY));
    assert!(book.cancel_order(id).is_ok());
    assert_eq!(book.cancel_order(id), Err(OrderNotFound));
}

#[test]
fn cancelled_order_is_out_of_consideration_for_matching() {
    let mut book = OrderBook::new();
    let bid = book.add_order(order(1, ticks(101), 50, OrderType::BUY));
    let _ask = book.add_order(order(2, ticks(100), 30, OrderType::SELL));
    book.cancel_order(bid).unwrap();
    let trades = book.match_orders();
    assert!(trades.is_empty());
    assert!(book.peek_best(OrderType::BUY).is_none());
    let ask_best = book.peek_best(OrderType::SELL).unwrap();
    assert_eq!(ask_best.order.size, 30);
}

#[test]
fn crossing_orders_trade_at_the_resting_price() {
    let mut book = OrderBook::new();
    let bid = book.add_order(order(1, ticks(101), 50, OrderType::BUY));
    let ask = book.add_order(order(2, ticks(100), 30, OrderType::SELL));
    let trades = book.match_orders();
    assert_eq!(
        trades,
        vec![Trade {
            price: Price { ticks: ticks(101) },
            quantity: 30,
            buy_order_id: bid,
            sell_order_id: ask,
            time: 2,
        }]
    );
    let bid_best = book.peek_best(OrderType::BUY).unwrap();
    assert_eq!(bid_best.order.size, 20);
    assert!(book.peek_best(OrderType::SELL).is_none());
}

#[test]
fn no_cross_remains_after_matching() {
    let mut book = OrderBook::new();
    book.add_order(order(1, ticks(101), 50, OrderType::BUY));
    book.add_order(order(2, ticks(99), 10, OrderType::BUY));
    book.add_order(order(3, ticks(100), 30, OrderType::SELL));
    book.add_order(order(4, ticks(100), 40, OrderType::SELL));
    book.match_orders();
    match (book.peek_best(OrderType::BUY), book.peek_best(OrderType::SELL)) {
        (Some(bid), Some(ask)) => assert!(bid.order.price.ticks < ask.order.price.ticks),
        _ => {}
    }
}

#[test]
fn exhausted_matching_is_idempotent() {
    let mut book = OrderBook::new();
    book.add_order(order(1, ticks(101), 50, OrderType::BUY));
    book.add_order(order(2, ticks(100), 30, OrderType::SELL));
    let first = book.match_orders();
    assert_eq!(first.len(), 1);
    let second = book.match_orders();
    assert!(second.is_empty());
    let bid_best = book.peek_best(OrderType::BUY).unwrap();
    assert_eq!(bid_best.order.size, 20);
}

#[test]
fn matching_walks_a_price_level_in_fifo_order() {
    let mut book = OrderBook::new();
    let early = book.add_order(order(1, ticks(100), 10, OrderType::SELL));
    let late = book.add_order(order(2, ticks(100), 10, OrderType::SELL));
    let bid = book.add_order(order(3, ticks(100), 15, OrderType::BUY));
    let trades = book.match_orders();
    assert_eq!(trades.len(), 2);
    assert_eq!(trades[0].sell_order_id, early);
    assert_eq!(trades[0].quantity, 10);
    assert_eq!(trades[1].sell_order_id, late);
    assert_eq!(trades[1].quantity, 5);
    assert!(trades.iter().all(|t| t.buy_order_id == bid));
}

#[test]
fn end_to_end_partial_fill_and_cancel() {
    let mut book = OrderBook::new();
    let a = book.add_order(order(1, ticks(50), 100, OrderType::BUY));
    let b = book.add_order(order(2, ticks(50), 60, OrderType::SELL));
    let trades = book.match_orders();
    assert_eq!(
        trades,
        vec![Trade {
            price: Price { ticks: ticks(50) },
            quantity: 60,
            buy_order_id: a,
            sell_order_id: b,
            time: 2,
        }]
    );
    assert_eq!(book.cancel_order(b), Err(OrderNotFound));
    let rest = book.cancel_order(a).unwrap();
    assert_eq!(rest.size, 40);
}
