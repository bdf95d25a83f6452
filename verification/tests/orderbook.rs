use matching_engine::errors::EngineError;
use matching_engine::orderbook::{Fill, Limit, Order, OrderBook, OrderType};
use matching_engine::price::Price;

fn price(units_whole: i128) -> Price {
    Price::new(units_whole, 0).unwrap()
}

#[test]
fn orderbook_fill_market_order_ask() {
    let mut orderbook = OrderBook::new();
    orderbook
        .add_limit_order(price(500), Order::new(1, OrderType::Ask, 10))
        .unwrap();
    orderbook
        .add_limit_order(price(200), Order::new(2, OrderType::Ask, 10))
        .unwrap();
    orderbook
        .add_limit_order(price(400), Order::new(3, OrderType::Ask, 10))
        .unwrap();
    orderbook
        .add_limit_order(price(300), Order::new(4, OrderType::Ask, 10))
        .unwrap();
    orderbook
        .add_limit_order(price(100), Order::new(5, OrderType::Ask, 10))
        .unwrap();

    let mut market_order = Order::new(6, OrderType::Bid, 10);
    let fills = orderbook.fill_market_order(&mut market_order);

    // The cheapest ask (price 100) is consumed entirely and its level pruned.
    assert!(market_order.is_filled());
    assert_eq!(fills, vec![Fill { order_id: 5, quantity: 10 }]);
    assert_eq!(orderbook.best_ask(), Some(price(200)));
    assert_eq!(orderbook.asks.len(), 4);
}

#[test]
fn limit_total_volume() {
    let p = price(10_000);
    let mut limit = Limit::new(p);

    let buy_limit_order_a = Order::new(1, OrderType::Bid, 100);
    let buy_limit_order_b = Order::new(2, OrderType::Bid, 100);

    limit.add_order(buy_limit_order_a);
    limit.add_order(buy_limit_order_b);

    assert_eq!(limit.total_volume(), 200);
}

#[test]
fn limit_order_multi_fill() {
    let p = price(10_000);
    let mut limit = Limit::new(p);

    let buy_limit_order_a = Order::new(1, OrderType::Bid, 100);
    let buy_limit_order_b = Order::new(2, OrderType::Bid, 100);
    limit.add_order(buy_limit_order_a);
    limit.add_order(buy_limit_order_b);

    let mut market_sell_order = Order::new(3, OrderType::Ask, 199);
    let fills = limit.fill_order(&mut market_sell_order);

    assert_eq!(market_sell_order.is_filled(), true);
    // Order A was consumed entirely and pruned; B is left with one unit.
    assert_eq!(
        fills,
        vec![
            Fill { order_id: 1, quantity: 100 },
            Fill { order_id: 2, quantity: 99 },
        ]
    );
    assert_eq!(limit.orders.len(), 1);
    assert_eq!(limit.orders[0].id, 2);
    assert_eq!(limit.orders[0].is_filled(), false);
    assert_eq!(limit.orders[0].remaining, 1);
}

#[test]
fn limit_order_single_fill() {
    let p = price(10_000);
    let mut limit = Limit::new(p);

    let buy_limit_order = Order::new(1, OrderType::Bid, 100);
    limit.add_order(buy_limit_order);

    let mut market_sell_order = Order::new(2, OrderType::Ask, 99);
    let fills = limit.fill_order(&mut market_sell_order);

    assert_eq!(market_sell_order.is_filled(), true);
    assert_eq!(fills, vec![Fill { order_id: 1, quantity: 99 }]);
    assert_eq!(limit.orders[0].remaining, 1);
}

#[test]
fn fifo_partial_consumption_touches_first_order_only() {
    let p = price(10_000);
    let mut limit = Limit::new(p);
    limit.add_order(Order::new(1, OrderType::Bid, 100));
    limit.add_order(Order::new(2, OrderType::Bid, 100));

    let mut aggressor = Order::new(3, OrderType::Ask, 50);
    let fills = limit.fill_order(&mut aggressor);

    assert_eq!(fills, vec![Fill { order_id: 1, quantity: 50 }]);
    assert_eq!(limit.orders.len(), 2);
    assert_eq!(limit.orders[0].id, 1);
    assert_eq!(limit.orders[0].remaining, 50);
    assert_eq!(limit.orders[1].id, 2);
    assert_eq!(limit.orders[1].remaining, 100);
}

#[test]
fn total_volume_of_empty_level_is_zero() {
    let limit = Limit::new(price(42));
    assert_eq!(limit.total_volume(), 0);
}

#[test]
fn market_order_sweeps_two_levels() {
    // Ask level at 100 holds X (size 10), ask level at 200 holds Y (size 5).
    let mut book = OrderBook::new();
    book.add_limit_order(price(100), Order::new(1, OrderType::Ask, 10))
        .unwrap();
    book.add_limit_order(price(200), Order::new(2, OrderType::Ask, 5))
        .unwrap();

    let mut market_bid = Order::new(3, OrderType::Bid, 12);
    let fills = book.fill_market_order(&mut market_bid);

    assert_eq!(
        fills,
        vec![
            Fill { order_id: 1, quantity: 10 },
            Fill { order_id: 2, quantity: 2 },
        ]
    );
    assert_eq!(market_bid.remaining, 0);
    // X was removed with its level; Y remains with 3 units.
    assert_eq!(book.asks.len(), 1);
    assert_eq!(book.best_ask(), Some(price(200)));
    assert_eq!(book.asks[0].orders[0].remaining, 3);
}

#[test]
fn market_order_on_exhausted_book_keeps_remainder() {
    let mut book = OrderBook::new();
    book.add_limit_order(price(100), Order::new(1, OrderType::Ask, 4))
        .unwrap();

    let mut market_bid = Order::new(2, OrderType::Bid, 10);
    let fills = book.fill_market_order(&mut market_bid);

    assert_eq!(fills, vec![Fill { order_id: 1, quantity: 4 }]);
    assert_eq!(market_bid.remaining, 6);
    assert!(book.best_ask().is_none());
}

#[test]
fn equal_price_ask_crosses_resting_bid() {
    // Resting bid Z at 50 size 10; an incoming ask at 50 size 4 crosses and
    // must match immediately instead of resting as an ask level.
    let mut book = OrderBook::new();
    book.add_limit_order(price(50), Order::new(1, OrderType::Bid, 10))
        .unwrap();

    let fills = book
        .add_limit_order(price(50), Order::new(2, OrderType::Ask, 4))
        .unwrap();

    assert_eq!(fills, vec![Fill { order_id: 1, quantity: 4 }]);
    assert_eq!(book.asks.len(), 0);
    assert_eq!(book.bids.len(), 1);
    assert_eq!(book.bids[0].orders[0].id, 1);
    assert_eq!(book.bids[0].orders[0].remaining, 6);
}

#[test]
fn non_crossing_bid_rests_untouched() {
    let mut book = OrderBook::new();
    book.add_limit_order(price(100), Order::new(1, OrderType::Ask, 10))
        .unwrap();

    let fills = book
        .add_limit_order(price(90), Order::new(2, OrderType::Bid, 7))
        .unwrap();

    assert!(fills.is_empty());
    assert_eq!(book.best_bid(), Some(price(90)));
    assert_eq!(book.bids[0].orders[0].remaining, 7);
    assert_eq!(book.best_ask(), Some(price(100)));
}

#[test]
fn crossing_bid_fills_before_resting_remainder() {
    let mut book = OrderBook::new();
    book.add_limit_order(price(100), Order::new(1, OrderType::Ask, 10))
        .unwrap();
    book.add_limit_order(price(120), Order::new(2, OrderType::Ask, 10))
        .unwrap();

    // Bid at 110 size 15: takes all of the 100-level, cannot take the
    // 120-level, and rests its remainder of 5 at 110.
    let fills = book
        .add_limit_order(price(110), Order::new(3, OrderType::Bid, 15))
        .unwrap();

    assert_eq!(fills, vec![Fill { order_id: 1, quantity: 10 }]);
    assert_eq!(book.best_ask(), Some(price(120)));
    assert_eq!(book.best_bid(), Some(price(110)));
    assert_eq!(book.bids[0].orders[0].id, 3);
    assert_eq!(book.bids[0].orders[0].remaining, 5);
}

#[test]
fn each_side_keeps_its_own_levels() {
    // One insert per side at distinct prices: each must appear only in its
    // own side's query.
    let mut book = OrderBook::new();
    book.add_limit_order(price(40), Order::new(1, OrderType::Bid, 3))
        .unwrap();
    book.add_limit_order(price(60), Order::new(2, OrderType::Ask, 3))
        .unwrap();

    assert_eq!(book.bids.len(), 1);
    assert_eq!(book.asks.len(), 1);
    assert_eq!(book.best_bid(), Some(price(40)));
    assert_eq!(book.best_ask(), Some(price(60)));
    assert_eq!(book.bids[0].orders[0].id, 1);
    assert_eq!(book.asks[0].orders[0].id, 2);
}

#[test]
fn best_prices_never_cross_under_insertions() {
    let mut book = OrderBook::new();
    book.add_limit_order(price(100), Order::new(1, OrderType::Ask, 5))
        .unwrap();
    book.add_limit_order(price(90), Order::new(2, OrderType::Bid, 5))
        .unwrap();
    book.add_limit_order(price(95), Order::new(3, OrderType::Bid, 5))
        .unwrap();
    book.add_limit_order(price(97), Order::new(4, OrderType::Ask, 5))
        .unwrap();
    let bb = book.best_bid().unwrap();
    let ba = book.best_ask().unwrap();
    assert!(bb.units < ba.units);
}

#[test]
fn add_limit_order_rejects_zero_size() {
    let mut book = OrderBook::new();
    let r = book.add_limit_order(price(10), Order::new(1, OrderType::Bid, 0));
    assert_eq!(r, Err(EngineError::InvalidSize));
    assert!(book.best_bid().is_none());
}

#[test]
fn cancel_removes_order_and_prunes_level() {
    let mut book = OrderBook::new();
    book.add_limit_order(price(50), Order::new(1, OrderType::Bid, 10))
        .unwrap();
    book.add_limit_order(price(50), Order::new(2, OrderType::Bid, 4))
        .unwrap();

    assert_eq!(book.cancel(1), Ok(()));
    assert_eq!(book.bids.len(), 1);
    assert_eq!(book.bids[0].orders.len(), 1);
    assert_eq!(book.bids[0].orders[0].id, 2);
    assert_eq!(book.bids[0].total_volume(), 4);

    // Cancelling the same id again fails: the order no longer rests.
    assert_eq!(book.cancel(1), Err(EngineError::OrderNotFound));

    // Cancelling the last order at the price removes the whole level.
    assert_eq!(book.cancel(2), Ok(()));
    assert!(book.best_bid().is_none());
    assert_eq!(book.bids.len(), 0);
}

#[test]
fn cancel_on_ask_side() {
    let mut book = OrderBook::new();
    book.add_limit_order(price(70), Order::new(9, OrderType::Ask, 2))
        .unwrap();
    assert_eq!(book.cancel(9), Ok(()));
    assert!(book.best_ask().is_none());
    assert_eq!(book.cancel(9), Err(EngineError::OrderNotFound));
}

#[test]
fn add_order_at_rests_without_matching() {
    let mut book = OrderBook::new();
    book.add_limit_order(price(60), Order::new(1, OrderType::Ask, 3))
        .unwrap();

    // A non-crossing administrative insert on the bid side.
    book.add_order_at(price(40), Order::new(2, OrderType::Bid, 5));

    assert_eq!(book.best_bid(), Some(price(40)));
    assert_eq!(book.bids[0].orders[0].id, 2);
    assert_eq!(book.bids[0].orders[0].remaining, 5);
    // Appending at an existing price keeps one level, two orders in order.
    book.add_order_at(price(40), Order::new(3, OrderType::Bid, 2));
    assert_eq!(book.bids.len(), 1);
    assert_eq!(book.bids[0].orders.len(), 2);
    assert_eq!(book.bids[0].orders[1].id, 3);
}

#[test]
fn ask_limit_sweeps_bids_descending() {
    let mut book = OrderBook::new();
    book.add_limit_order(price(90), Order::new(1, OrderType::Bid, 5))
        .unwrap();
    book.add_limit_order(price(100), Order::new(2, OrderType::Bid, 5))
        .unwrap();

    // An ask at 85 crosses both bid levels, highest buy first.
    let fills = book
        .add_limit_order(price(85), Order::new(3, OrderType::Ask, 8))
        .unwrap();

    assert_eq!(
        fills,
        vec![
            Fill { order_id: 2, quantity: 5 },
            Fill { order_id: 1, quantity: 3 },
        ]
    );
    assert_eq!(book.best_bid(), Some(price(90)));
    assert_eq!(book.bids[0].orders[0].remaining, 2);
    assert!(book.best_ask().is_none());
}

#[test]
fn ask_levels_sorted_ascending_bids_descending() {
    let mut book = OrderBook::new();
    book.add_limit_order(price(300), Order::new(1, OrderType::Ask, 1))
        .unwrap();
    book.add_limit_order(price(100), Order::new(2, OrderType::Ask, 1))
        .unwrap();
    book.add_limit_order(price(200), Order::new(3, OrderType::Ask, 1))
        .unwrap();
    book.add_limit_order(price(10), Order::new(4, OrderType::Bid, 1))
        .unwrap();
    book.add_limit_order(price(30), Order::new(5, OrderType::Bid, 1))
        .unwrap();
    book.add_limit_order(price(20), Order::new(6, OrderType::Bid, 1))
        .unwrap();

    let ask_prices: Vec<u64> = book.asks.iter().map(|l| l.price.units).collect();
    let bid_prices: Vec<u64> = book.bids.iter().map(|l| l.price.units).collect();
    assert_eq!(ask_prices, vec![price(100).units, price(200).units, price(300).units]);
    assert_eq!(bid_prices, vec![price(30).units, price(20).units, price(10).units]);
}
