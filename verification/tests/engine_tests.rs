use matching_engine::engine::{EngineError, MatchingEngine, TradingPair};
use matching_engine::orderbook::{BidOrAk, Order};
use matching_engine::price::Price;

fn pair(base: &str, quote: &str) -> TradingPair {
    TradingPair::new(String::from(base), String::from(quote))
}

#[test]
fn pair_to_string() {
    assert_eq!(pair("BTC", "USDT").to_string(), "BTC_USDT");
}

#[test]
fn open_market_twice_is_rejected() {
    let mut engine = MatchingEngine::new();
    assert_eq!(engine.add_new_market(pair("BTC", "USDT")), Ok(()));
    assert_eq!(
        engine.add_new_market(pair("BTC", "USDT")),
        Err(EngineError::MarketAlreadyExists)
    );
    assert_eq!(engine.orderbooks.len(), 1);
}

#[test]
fn place_against_unknown_market_mutates_nothing() {
    let mut engine = MatchingEngine::new();
    engine.add_new_market(pair("BTC", "USDT")).unwrap();
    let price = Price::construct(100000, 1).unwrap();
    engine
        .place_limit_order(pair("BTC", "USDT"), price, Order::new(BidOrAk::Bid, 10))
        .unwrap();

    let r = engine.place_limit_order(pair("ETH", "USDT"), price, Order::new(BidOrAk::Bid, 5));
    assert_eq!(r, Err(EngineError::MarketNotFound));
    assert_eq!(engine.orderbooks.len(), 1);
    assert_eq!(engine.orderbooks[0].1.bid_limits().len(), 1);
    assert_eq!(engine.orderbooks[0].1.bid_limits()[0].total_volume(), 10);
}

#[test]
fn markets_are_isolated() {
    let mut engine = MatchingEngine::new();
    engine.add_new_market(pair("BTC", "USDT")).unwrap();
    engine.add_new_market(pair("ETH", "USDT")).unwrap();
    let price = Price::construct(2000, 0).unwrap();

    engine
        .place_limit_order(pair("ETH", "USDT"), price, Order::new(BidOrAk::Bid, 5))
        .unwrap();

    let btc_book = &engine.orderbooks[0].1;
    assert_eq!(btc_book.bid_limits().len(), 0);
    assert_eq!(btc_book.ask_limits().len(), 0);
    let eth_book = &engine.orderbooks[1].1;
    assert_eq!(eth_book.bid_limits().len(), 1);
}

#[test]
fn market_sell_walks_bids_in_arrival_order() {
    // Open (BTC,USDT); bid 100 @ 10000, then bid 50 @ 10000; a market sell
    // of 120 drains the first bid, leaves 30 on the second, and is filled.
    let mut engine = MatchingEngine::new();
    engine.add_new_market(pair("BTC", "USDT")).unwrap();
    let price = Price::construct(100000, 1).unwrap();
    engine
        .place_limit_order(pair("BTC", "USDT"), price, Order::new(BidOrAk::Bid, 100))
        .unwrap();
    engine
        .place_limit_order(pair("BTC", "USDT"), price, Order::new(BidOrAk::Bid, 50))
        .unwrap();

    let mut sell = Order::new(BidOrAk::Ask, 120);
    engine.place_market_order(pair("BTC", "USDT"), &mut sell).unwrap();

    assert!(sell.is_filled());
    let bids = engine.orderbooks[0].1.bid_limits();
    assert_eq!(bids.len(), 1);
    assert_eq!(bids[0].orders.len(), 2);
    assert_eq!(bids[0].orders[0].size, 0);
    assert_eq!(bids[0].orders[1].size, 30);
}

#[test]
fn market_order_against_unknown_market_is_rejected() {
    let mut engine = MatchingEngine::new();
    let mut sell = Order::new(BidOrAk::Ask, 9);
    let r = engine.place_market_order(pair("BTC", "USDT"), &mut sell);
    assert_eq!(r, Err(EngineError::MarketNotFound));
    assert_eq!(sell.size, 9);
    assert_eq!(engine.orderbooks.len(), 0);
}
