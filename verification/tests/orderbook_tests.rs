use matching_engine::orderbook::{BidOrAk, Order, Orderbook};
use matching_engine::orderbook::Limit;
use matching_engine::price::Price;

fn price_10000() -> Price {
    // 10000.0 written as the decimal 100000 * 10^-1
    Price::construct(100000, 1).unwrap()
}

#[test]
fn limit_total_volume() {
    let price = price_10000();
    let mut limit = Limit::new(price);
    let buy_limit_order = Order::new(BidOrAk::Bid, 100);
    let buy_limit_order_b = Order::new(BidOrAk::Bid, 100);
    limit.add_order(buy_limit_order);
    limit.add_order(buy_limit_order_b);

    assert_eq!(limit.total_volume(), 200);
}

#[test]
fn limit_multi_order_fill() {
    let price = price_10000();
    let mut limit = Limit::new(price);
    let buy_limit_order = Order::new(BidOrAk::Bid, 100);
    let buy_limit_order_b = Order::new(BidOrAk::Bid, 100);
    limit.add_order(buy_limit_order);
    limit.add_order(buy_limit_order_b);

    let mut market_sell_order = Order::new(BidOrAk::Ask, 150);
    limit.fill_order(&mut market_sell_order);

    assert_eq!(market_sell_order.is_filled(), true);
    assert_eq!(limit.orders.get(0).unwrap().is_filled(), true);
    assert_eq!(limit.orders.get(1).unwrap().is_filled(), false);
    assert_eq!(limit.orders.get(1).unwrap().size, 50);
}

#[test]
fn limit_single_order_fill() {
    let price = price_10000();
    let mut limit = Limit::new(price);
    let buy_limit_order = Order::new(BidOrAk::Bid, 100);
    limit.add_order(buy_limit_order);

    let mut market_sell_order = Order::new(BidOrAk::Ask, 99);
    limit.fill_order(&mut market_sell_order);

    assert_eq!(market_sell_order.is_filled(), true);
    assert_eq!(limit.orders.get(0).unwrap().size, 1);
}

#[test]
fn limit_empty_total_volume_is_zero() {
    let limit = Limit::new(price_10000());
    assert_eq!(limit.total_volume(), 0);
}

#[test]
fn limit_fill_conserves_size() {
    let mut limit = Limit::new(price_10000());
    limit.add_order(Order::new(BidOrAk::Bid, 70));
    limit.add_order(Order::new(BidOrAk::Bid, 30));
    let before = limit.total_volume();

    let mut market_sell_order = Order::new(BidOrAk::Ask, 45);
    limit.fill_order(&mut market_sell_order);

    let removed = before - limit.total_volume();
    assert_eq!(removed + market_sell_order.size as u128, 45);
    assert_eq!(limit.orders[0].size, 25);
    assert_eq!(limit.orders[1].size, 30);
}

#[test]
fn limit_time_priority_exact_fill() {
    // An incoming order of exactly the first resting size drains the first
    // order and leaves the second untouched.
    let mut limit = Limit::new(price_10000());
    limit.add_order(Order::new(BidOrAk::Bid, 60));
    limit.add_order(Order::new(BidOrAk::Bid, 40));

    let mut market_sell_order = Order::new(BidOrAk::Ask, 60);
    limit.fill_order(&mut market_sell_order);

    assert!(market_sell_order.is_filled());
    assert_eq!(limit.orders[0].size, 0);
    assert_eq!(limit.orders[1].size, 40);
}

#[test]
fn book_price_priority() {
    // Resting asks at 10 and 11 of size 5 each; a market buy of 7 takes 5
    // at 10 and 2 at 11, never touching 11 before 10 is exhausted.
    let mut book = Orderbook::new();
    let p11 = Price::construct(11, 0).unwrap();
    let p10 = Price::construct(10, 0).unwrap();
    // insert the worse price first: the book must still walk 10 before 11
    book.add_order(p11, Order::new(BidOrAk::Ask, 5));
    book.add_order(p10, Order::new(BidOrAk::Ask, 5));

    let mut buy = Order::new(BidOrAk::Bid, 7);
    book.fill_market_order(&mut buy);

    assert!(buy.is_filled());
    let asks = book.ask_limits();
    assert_eq!(asks.len(), 2);
    assert_eq!(asks[0].price, p10);
    assert_eq!(asks[1].price, p11);
    assert_eq!(asks[0].orders[0].size, 0);
    assert_eq!(asks[1].orders[0].size, 3);
}

#[test]
fn book_fill_sell_against_bids() {
    // A market sell walks the bids highest price first.
    let mut book = Orderbook::new();
    let p9 = Price::construct(9, 0).unwrap();
    let p10 = Price::construct(10, 0).unwrap();
    book.add_order(p9, Order::new(BidOrAk::Bid, 4));
    book.add_order(p10, Order::new(BidOrAk::Bid, 4));

    let mut sell = Order::new(BidOrAk::Ask, 6);
    book.fill_market_order(&mut sell);

    assert!(sell.is_filled());
    let bids = book.bid_limits();
    assert_eq!(bids[0].price, p10);
    assert_eq!(bids[0].orders[0].size, 0);
    assert_eq!(bids[1].price, p9);
    assert_eq!(bids[1].orders[0].size, 2);
}

#[test]
fn book_exhausted_leaves_remainder() {
    // A market order bigger than the whole opposite side keeps the excess.
    let mut book = Orderbook::new();
    let p10 = Price::construct(10, 0).unwrap();
    book.add_order(p10, Order::new(BidOrAk::Ask, 5));

    let mut buy = Order::new(BidOrAk::Bid, 12);
    book.fill_market_order(&mut buy);

    assert!(!buy.is_filled());
    assert_eq!(buy.size, 7);
}

#[test]
fn book_fill_against_empty_side_is_a_no_op() {
    let mut book = Orderbook::new();
    let mut buy = Order::new(BidOrAk::Bid, 8);
    book.fill_market_order(&mut buy);
    assert_eq!(buy.size, 8);
    assert_eq!(book.ask_limits().len(), 0);
}

#[test]
fn book_same_price_buckets_together() {
    // Two bids at prices constructed separately from one value share a level.
    let mut book = Orderbook::new();
    let first = Price::construct(100000, 1).unwrap();
    let second = Price::construct(1000000, 2).unwrap();
    assert_eq!(first, second);
    book.add_order(first, Order::new(BidOrAk::Bid, 1));
    book.add_order(second, Order::new(BidOrAk::Bid, 2));

    let bids = book.bid_limits();
    assert_eq!(bids.len(), 1);
    assert_eq!(bids[0].orders.len(), 2);
    assert_eq!(bids[0].total_volume(), 3);
}
