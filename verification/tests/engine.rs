use matching_engine::engine::{MatchingEngine, TradingPair};
use matching_engine::errors::EngineError;
use matching_engine::orderbook::{Fill, Order, OrderType};
use matching_engine::price::Price;

fn price(units_whole: i128) -> Price {
    Price::new(units_whole, 0).unwrap()
}

fn btc_usd() -> TradingPair {
    TradingPair::new("BTC".to_string(), "USD".to_string())
}

#[test]
fn trading_pair_canonical_string() {
    assert_eq!(btc_usd().to_string(), "BTC_USD");
    let p = TradingPair::new("ETH".to_string(), "USD".to_string());
    assert_eq!(p.to_string(), "ETH_USD");
}

#[test]
fn unregistered_pair_is_market_not_found() {
    // An engine with only "BTC_USD" registered rejects "ETH_USD" instead of
    // silently creating a market for it.
    let mut engine = MatchingEngine::new();
    engine.new_market(&btc_usd()).unwrap();

    let eth_usd = TradingPair::new("ETH".to_string(), "USD".to_string());
    let r = engine.place_limit_order(&eth_usd, price(100), Order::new(1, OrderType::Bid, 5));
    assert_eq!(r, Err(EngineError::MarketNotFound));

    let mut m = Order::new(2, OrderType::Ask, 5);
    assert_eq!(
        engine.place_market_order(&eth_usd, &mut m),
        Err(EngineError::MarketNotFound)
    );
    assert_eq!(engine.cancel_order(&eth_usd, 1), Err(EngineError::MarketNotFound));
}

#[test]
fn duplicate_market_registration_fails() {
    let mut engine = MatchingEngine::new();
    assert_eq!(engine.new_market(&btc_usd()), Ok(()));
    assert_eq!(engine.new_market(&btc_usd()), Err(EngineError::MarketAlreadyExists));
    assert_eq!(engine.orderbooks.len(), 1);
}

#[test]
fn engine_routes_orders_to_its_book() {
    let mut engine = MatchingEngine::new();
    engine.new_market(&btc_usd()).unwrap();

    let fills = engine
        .place_limit_order(&btc_usd(), price(100), Order::new(1, OrderType::Ask, 10))
        .unwrap();
    assert!(fills.is_empty());

    let fills = engine
        .place_limit_order(&btc_usd(), price(100), Order::new(2, OrderType::Bid, 4))
        .unwrap();
    assert_eq!(fills, vec![Fill { order_id: 1, quantity: 4 }]);

    let mut market_bid = Order::new(3, OrderType::Bid, 10);
    let fills = engine.place_market_order(&btc_usd(), &mut market_bid).unwrap();
    assert_eq!(fills, vec![Fill { order_id: 1, quantity: 6 }]);
    // The book held 6 units: the market order observes its remainder.
    assert_eq!(market_bid.remaining, 4);
}

#[test]
fn engine_cancel_order() {
    let mut engine = MatchingEngine::new();
    engine.new_market(&btc_usd()).unwrap();
    engine
        .place_limit_order(&btc_usd(), price(100), Order::new(7, OrderType::Bid, 3))
        .unwrap();

    assert_eq!(engine.cancel_order(&btc_usd(), 7), Ok(()));
    assert_eq!(engine.cancel_order(&btc_usd(), 7), Err(EngineError::OrderNotFound));
}

#[test]
fn engine_rejects_zero_size_orders() {
    let mut engine = MatchingEngine::new();
    engine.new_market(&btc_usd()).unwrap();

    let r = engine.place_limit_order(&btc_usd(), price(100), Order::new(1, OrderType::Bid, 0));
    assert_eq!(r, Err(EngineError::InvalidSize));

    let mut m = Order::new(2, OrderType::Ask, 0);
    assert_eq!(
        engine.place_market_order(&btc_usd(), &mut m),
        Err(EngineError::InvalidSize)
    );
}

#[test]
fn markets_are_independent() {
    let mut engine = MatchingEngine::new();
    let eth_usd = TradingPair::new("ETH".to_string(), "USD".to_string());
    engine.new_market(&btc_usd()).unwrap();
    engine.new_market(&eth_usd).unwrap();

    engine
        .place_limit_order(&btc_usd(), price(100), Order::new(1, OrderType::Ask, 5))
        .unwrap();
    // A crossing bid on ETH_USD finds no liquidity there: BTC_USD's ask must
    // not be visible from another market.
    let fills = engine
        .place_limit_order(&eth_usd, price(100), Order::new(2, OrderType::Bid, 5))
        .unwrap();
    assert!(fills.is_empty());
}
