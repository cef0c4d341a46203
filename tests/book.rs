use orderbook::book::{BookError, Client, Order, OrderBook, OrderBookResult, Side, Trade};
use orderbook::ids::IdSequence;

fn submit(ob: &mut OrderBook, ids: &mut IdSequence, side: Side, price: u64, size: u64, client: &Client) -> OrderBookResult {
    let order = Order::new(side, price, size, client, ids);
    ob.insert(order, ids)
}

fn terms(trades: &[Trade]) -> Vec<(u64, u64)> {
    trades.iter().map(|t| (t.price(), t.size())).collect()
}

/// Bid(90,5), Bid(100,3), Ask(110,3,A), Ask(110,2,B), Ask(120,2), Ask(130,6).
fn scenario_book(ids: &mut IdSequence) -> (OrderBook, Client, Client, Vec<u64>) {
    let mut ob = OrderBook::new();
    let a = Client::new(ids);
    let b = Client::new(ids);
    let mut resting = Vec::new();
    for (side, price, size, client) in [
        (Side::Bid, 90, 5, &a),
        (Side::Bid, 100, 3, &a),
        (Side::Ask, 110, 3, &a),
        (Side::Ask, 110, 2, &b),
        (Side::Ask, 120, 2, &a),
        (Side::Ask, 130, 6, &b),
    ] {
        match submit(&mut ob, ids, side, price, size, client) {
            OrderBookResult::OrderId(id) => resting.push(id),
            _ => panic!("setup order should rest"),
        }
    }
    (ob, a, b, resting)
}

#[test]
fn test_client_id() {
    let mut ids = IdSequence::new();
    let client1 = Client::new(&mut ids);
    let client2 = Client::new(&mut ids);
    assert_ne!(client1.id(), client2.id());
}

#[test]
fn test_empty_bid() {
    let ob = OrderBook::new();
    assert_eq!(ob.best_bid(), None);
    assert_eq!(ob.best_bid_size(), None);
}

#[test]
fn test_empty_ask() {
    let ob = OrderBook::new();
    assert_eq!(ob.best_ask(), None);
    assert_eq!(ob.best_ask_size(), None);
}

#[test]
fn test_invalid_order() {
    let mut ids = IdSequence::new();
    let client = Client::new(&mut ids);
    for (price, size) in [(0u64, 0u64), (100, 0), (0, 1)] {
        let mut ob = OrderBook::new();
        let result = submit(&mut ob, &mut ids, Side::Bid, price, size, &client);
        assert!(matches!(result, OrderBookResult::Error(BookError::InvalidOrder)));
        assert_eq!(ob.best_bid(), None);
        assert_eq!(ob.best_ask(), None);
    }
}

#[test]
fn test_invalid_order_leaves_book_unchanged() {
    let mut ids = IdSequence::new();
    let (mut ob, a, _, _) = scenario_book(&mut ids);
    let result = submit(&mut ob, &mut ids, Side::Bid, 100, 0, &a);
    assert!(matches!(result, OrderBookResult::Error(BookError::InvalidOrder)));
    assert_eq!(ob.best_bid(), Some(100));
    assert_eq!(ob.best_bid_size(), Some(3));
    assert_eq!(ob.best_ask(), Some(110));
    assert_eq!(ob.best_ask_size(), Some(5));
}

#[test]
fn test_passive_placement() {
    let mut ids = IdSequence::new();
    let client = Client::new(&mut ids);
    let mut ob = OrderBook::new();
    let result = submit(&mut ob, &mut ids, Side::Bid, 100, 1, &client);
    assert!(matches!(result, OrderBookResult::OrderId(_)));
    assert_eq!(ob.best_bid(), Some(100));
    assert_eq!(ob.best_bid_size(), Some(1));
    assert_eq!(ob.best_ask(), None);
}

#[test]
fn test_cancel_order() {
    let mut ids = IdSequence::new();
    let client = Client::new(&mut ids);
    let mut ob = OrderBook::new();
    let order_id = match submit(&mut ob, &mut ids, Side::Bid, 100, 1, &client) {
        OrderBookResult::OrderId(id) => id,
        _ => unreachable!(),
    };
    assert!(ob.is_resting(order_id));
    let result = ob.cancel(order_id);
    assert!(matches!(result, OrderBookResult::Canceled));
    assert!(!ob.is_resting(order_id));
    assert_eq!(ob.best_bid(), None);
}

#[test]
fn test_cancel_invalid_order() {
    let mut ids = IdSequence::new();
    let client = Client::new(&mut ids);
    let mut ob = OrderBook::new();
    submit(&mut ob, &mut ids, Side::Bid, 100, 1, &client);
    let result = ob.cancel(18378);
    assert!(matches!(result, OrderBookResult::Error(BookError::OrderNotFound)));
    assert_eq!(ob.best_bid(), Some(100));
    assert_eq!(ob.best_bid_size(), Some(1));
}

#[test]
fn test_cancel_twice_is_not_found() {
    let mut ids = IdSequence::new();
    let (mut ob, _, _, resting) = scenario_book(&mut ids);
    assert!(matches!(ob.cancel(resting[1]), OrderBookResult::Canceled));
    assert!(matches!(ob.cancel(resting[1]), OrderBookResult::Error(BookError::OrderNotFound)));
    assert_eq!(ob.best_bid(), Some(90));
    assert_eq!(ob.best_bid_size(), Some(5));
    assert_eq!(ob.best_ask(), Some(110));
    assert_eq!(ob.best_ask_size(), Some(5));
}

#[test]
fn test_cancel_keeps_level_when_others_remain() {
    let mut ids = IdSequence::new();
    let (mut ob, _, _, resting) = scenario_book(&mut ids);
    assert!(matches!(ob.cancel(resting[2]), OrderBookResult::Canceled));
    assert_eq!(ob.best_ask(), Some(110));
    assert_eq!(ob.best_ask_size(), Some(2));
    assert!(ob.is_resting(resting[3]));
}

#[test]
fn test_best_bid() {
    let mut ids = IdSequence::new();
    let client = Client::new(&mut ids);
    let mut ob = OrderBook::new();
    let prices = vec![140, 150, 160, 130, 180, 140];
    let sizes = vec![1, 2, 3, 4, 5, 6];
    for (price, size) in prices.iter().zip(sizes.iter()) {
        submit(&mut ob, &mut ids, Side::Bid, *price, *size, &client);
    }
    assert_eq!(ob.best_bid(), Some(180));
    assert_eq!(ob.best_bid_size(), Some(5));
}

#[test]
fn test_best_ask() {
    let mut ids = IdSequence::new();
    let client = Client::new(&mut ids);
    let mut ob = OrderBook::new();
    let prices = vec![140, 150, 160, 130, 180, 140];
    let sizes = vec![1, 2, 3, 4, 5, 6];
    for (price, size) in prices.iter().zip(sizes.iter()) {
        submit(&mut ob, &mut ids, Side::Ask, *price, *size, &client);
    }
    assert_eq!(ob.best_ask(), Some(130));
    assert_eq!(ob.best_ask_size(), Some(4));
}

#[test]
fn test_level_size_sums_all_orders_at_price() {
    let mut ids = IdSequence::new();
    let client = Client::new(&mut ids);
    let mut ob = OrderBook::new();
    for size in [4u64, 7, 9] {
        submit(&mut ob, &mut ids, Side::Ask, 200, size, &client);
    }
    submit(&mut ob, &mut ids, Side::Ask, 210, 50, &client);
    assert_eq!(ob.best_ask_size(), Some(20));
}

#[test]
fn test_level_size_largest_sizes() {
    let mut ids = IdSequence::new();
    let client = Client::new(&mut ids);
    let mut ob = OrderBook::new();
    let order = Order::new(Side::Bid, 100, u64::MAX, &client, &mut ids);
    ob.insert(order, &mut ids);
    let order = Order::new(Side::Bid, 100, u64::MAX, &client, &mut ids);
    ob.insert(order, &mut ids);
    assert_eq!(ob.best_bid_size(), Some(2 * (u64::MAX as u128)));
}

#[test]
fn test_partial_fill() {
    let mut ids = IdSequence::new();
    let client = Client::new(&mut ids);
    let mut ob = OrderBook::new();
    submit(&mut ob, &mut ids, Side::Bid, 150, 1, &client);
    if let OrderBookResult::OrderIdTrades(_, trades) = submit(&mut ob, &mut ids, Side::Ask, 150, 2, &client) {
        let trade = &trades[0];
        assert_eq!(trade.price(), 150);
        assert_eq!(trade.size(), 1);
        assert_eq!(trades.len(), 1);
    } else {
        unreachable!();
    }
    assert_eq!(ob.best_ask_size(), Some(1));
    assert_eq!(ob.best_ask(), Some(150));
    assert_eq!(ob.best_bid(), None);
}

#[test]
fn test_aggressive_fill_against_best_level() {
    let mut ids = IdSequence::new();
    let (mut ob, _, b, resting) = scenario_book(&mut ids);
    match submit(&mut ob, &mut ids, Side::Bid, 110, 2, &b) {
        OrderBookResult::Trades(trades) => assert_eq!(terms(&trades), vec![(110, 2)]),
        _ => unreachable!(),
    }
    assert_eq!(ob.best_ask(), Some(110));
    assert_eq!(ob.best_ask_size(), Some(3));
    assert_eq!(ob.best_bid(), Some(100));
    // the first ask at 110 still rests with one unit, ahead of the second
    assert!(ob.is_resting(resting[2]));
    match submit(&mut ob, &mut ids, Side::Bid, 110, 1, &b) {
        OrderBookResult::Trades(trades) => assert_eq!(terms(&trades), vec![(110, 1)]),
        _ => unreachable!(),
    }
    assert!(!ob.is_resting(resting[2]));
    assert!(ob.is_resting(resting[3]));
    assert_eq!(ob.best_ask_size(), Some(2));
}

#[test]
fn test_fifo_within_price_level() {
    let mut ids = IdSequence::new();
    let a = Client::new(&mut ids);
    let b = Client::new(&mut ids);
    let mut ob = OrderBook::new();
    let first = match submit(&mut ob, &mut ids, Side::Ask, 110, 3, &a) {
        OrderBookResult::OrderId(id) => id,
        _ => unreachable!(),
    };
    let second = match submit(&mut ob, &mut ids, Side::Ask, 110, 2, &b) {
        OrderBookResult::OrderId(id) => id,
        _ => unreachable!(),
    };
    match submit(&mut ob, &mut ids, Side::Bid, 110, 4, &b) {
        OrderBookResult::Trades(trades) => assert_eq!(terms(&trades), vec![(110, 3), (110, 1)]),
        _ => unreachable!(),
    }
    assert!(!ob.is_resting(first));
    assert!(ob.is_resting(second));
    assert_eq!(ob.best_ask_size(), Some(1));
}

#[test]
fn test_sweep_all_asks_and_rest_remainder() {
    let mut ids = IdSequence::new();
    let (mut ob, _, b, _) = scenario_book(&mut ids);
    submit(&mut ob, &mut ids, Side::Bid, 110, 2, &b);
    let first_trade = ids.trades_left();
    match submit(&mut ob, &mut ids, Side::Bid, 140, 20, &b) {
        OrderBookResult::OrderIdTrades(id, trades) => {
            assert_eq!(terms(&trades), vec![(110, 1), (110, 2), (120, 2), (130, 6)]);
            assert_eq!(trades.iter().map(|t| t.size()).sum::<u64>(), 11);
            let start = u64::MAX - first_trade;
            for (k, t) in trades.iter().enumerate() {
                assert_eq!(t.id(), start + k as u64);
            }
            assert!(ob.is_resting(id));
        }
        _ => unreachable!(),
    }
    assert_eq!(ob.best_ask(), None);
    assert_eq!(ob.best_ask_size(), None);
    assert_eq!(ob.best_bid(), Some(140));
    assert_eq!(ob.best_bid_size(), Some(9));
}

#[test]
fn test_aggressive_stops_at_limit() {
    let mut ids = IdSequence::new();
    let (mut ob, a, _, _) = scenario_book(&mut ids);
    match submit(&mut ob, &mut ids, Side::Ask, 95, 10, &a) {
        OrderBookResult::OrderIdTrades(_, trades) => assert_eq!(terms(&trades), vec![(100, 3)]),
        _ => unreachable!(),
    }
    assert_eq!(ob.best_bid(), Some(90));
    assert_eq!(ob.best_ask(), Some(95));
    assert_eq!(ob.best_ask_size(), Some(7));
}

#[test]
fn test_book_never_crossed_after_inserts() {
    let mut ids = IdSequence::new();
    let client = Client::new(&mut ids);
    let mut ob = OrderBook::new();
    for (side, price, size) in [
        (Side::Bid, 100, 5),
        (Side::Ask, 105, 2),
        (Side::Bid, 106, 1),
        (Side::Ask, 99, 10),
        (Side::Bid, 103, 3),
    ] {
        submit(&mut ob, &mut ids, side, price, size, &client);
        if let (Some(bid), Some(ask)) = (ob.best_bid(), ob.best_ask()) {
            assert!(bid < ask);
        }
    }
}

#[test]
fn test_ids_count_up_per_kind() {
    let mut ids = IdSequence::new();
    let c0 = Client::new(&mut ids);
    let c1 = Client::new(&mut ids);
    let o0 = Order::new(Side::Bid, 1, 1, &c0, &mut ids);
    let o1 = Order::new(Side::Ask, 2, 3, &c1, &mut ids);
    let t0 = Trade::new(5, 1, &mut ids);
    assert_eq!((c0.id(), c1.id()), (0, 1));
    assert_eq!((o0.id(), o1.id()), (0, 1));
    assert_eq!(t0.id(), 0);
    assert_eq!((o1.side(), o1.price(), o1.size(), o1.client_id()), (Side::Ask, 2, 3, 1));
    assert_eq!((t0.price(), t0.size()), (5, 1));
    assert_eq!(ids.orders_left(), u64::MAX - 2);
    assert_eq!(ids.clients_left(), u64::MAX - 2);
    assert_eq!(ids.trades_left(), u64::MAX - 1);
}

#[test]
fn test_get_size_of_each_level() {
    let mut ids = IdSequence::new();
    let (ob, _, _, _) = scenario_book(&mut ids);
    assert_eq!(ob.get_size(Side::Ask, 110), 5);
    assert_eq!(ob.get_size(Side::Ask, 120), 2);
    assert_eq!(ob.get_size(Side::Ask, 130), 6);
    assert_eq!(ob.get_size(Side::Bid, 90), 5);
    assert_eq!(ob.get_size(Side::Bid, 110), 0);
}
