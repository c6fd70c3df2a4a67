use matching_engine::book::{BookError, OrderBook};
use matching_engine::order::{Order, OrderType, Side};

fn order(side: Side, order_type: OrderType, price: u64, quantity: u64, id: &str) -> Order {
    Order::new(quantity, "ACME".to_string(), price, side, order_type, id.to_string())
}

fn ids(orders: &Vec<Order>) -> Vec<String> {
    orders.iter().map(|o| o.client_order_id.clone()).collect()
}

#[test]
fn new_book_is_empty() {
    let book = OrderBook::new();
    assert!(book.bids().is_empty());
    assert!(book.asks().is_empty());
    assert_eq!(book.next_sequence(), 0);
    assert!(book.best_bid().is_none());
    assert!(book.best_ask().is_none());
    assert!(!book.is_crossed());
}

#[test]
fn default_book_is_empty() {
    let book = OrderBook::default();
    assert!(book.bids().is_empty());
    assert!(book.asks().is_empty());
    assert_eq!(book.next_sequence(), 0);
}

#[test]
fn new_order_has_no_arrival_index_yet() {
    let o = Order::new(7, "ACME".to_string(), 12, Side::Sell, OrderType::Limit, "c1".to_string());
    assert_eq!(o.quantity, 7);
    assert_eq!(o.symbol, "ACME");
    assert_eq!(o.price, 12);
    assert_eq!(o.side, Side::Sell);
    assert_eq!(o.order_type, OrderType::Limit);
    assert_eq!(o.client_order_id, "c1");
    assert_eq!(o.sequence, 0);
}

#[test]
fn arrival_indices_count_up_from_zero() {
    let mut book = OrderBook::new();
    assert_eq!(book.add_order(order(Side::Buy, OrderType::Limit, 10, 1, "a")), Ok(0));
    assert_eq!(book.add_order(order(Side::Sell, OrderType::Limit, 20, 1, "b")), Ok(1));
    assert_eq!(book.add_order(order(Side::Buy, OrderType::Limit, 11, 1, "c")), Ok(2));
    assert_eq!(book.next_sequence(), 3);
    assert_eq!(book.best_bid().unwrap().sequence, 2);
    assert_eq!(book.best_ask().unwrap().sequence, 1);
}

#[test]
fn bids_rest_by_descending_price_then_arrival() {
    let mut book = OrderBook::new();
    book.add_order(order(Side::Buy, OrderType::Limit, 10, 1, "ten-first")).unwrap();
    book.add_order(order(Side::Buy, OrderType::Limit, 12, 1, "twelve")).unwrap();
    book.add_order(order(Side::Buy, OrderType::Limit, 10, 1, "ten-second")).unwrap();
    book.add_order(order(Side::Buy, OrderType::Limit, 11, 1, "eleven")).unwrap();
    assert_eq!(ids(book.bids()), vec!["twelve", "eleven", "ten-first", "ten-second"]);
    assert_eq!(book.best_bid().unwrap().client_order_id, "twelve");
}

#[test]
fn asks_rest_by_ascending_price_then_arrival() {
    let mut book = OrderBook::new();
    book.add_order(order(Side::Sell, OrderType::Limit, 10, 1, "ten-first")).unwrap();
    book.add_order(order(Side::Sell, OrderType::Limit, 8, 1, "eight")).unwrap();
    book.add_order(order(Side::Sell, OrderType::Limit, 10, 1, "ten-second")).unwrap();
    book.add_order(order(Side::Sell, OrderType::Limit, 9, 1, "nine")).unwrap();
    assert_eq!(ids(book.asks()), vec!["eight", "nine", "ten-first", "ten-second"]);
    assert_eq!(book.best_ask().unwrap().client_order_id, "eight");
}

#[test]
fn market_orders_rest_in_front_of_limit_orders() {
    let mut book = OrderBook::new();
    book.add_order(order(Side::Buy, OrderType::Limit, 50, 1, "limit-bid")).unwrap();
    book.add_order(order(Side::Buy, OrderType::Market, 0, 1, "market-bid")).unwrap();
    assert_eq!(ids(book.bids()), vec!["market-bid", "limit-bid"]);
    assert_eq!(book.best_bid().unwrap().limit(), u64::MAX);

    let mut book = OrderBook::new();
    book.add_order(order(Side::Sell, OrderType::Limit, 1, 1, "limit-ask")).unwrap();
    book.add_order(order(Side::Sell, OrderType::Market, 77, 1, "market-ask")).unwrap();
    assert_eq!(ids(book.asks()), vec!["market-ask", "limit-ask"]);
    assert_eq!(book.best_ask().unwrap().limit(), 0);
    assert_eq!(book.best_ask().unwrap().price, 77);
}

#[test]
fn order_without_quantity_is_refused() {
    let mut book = OrderBook::new();
    book.add_order(order(Side::Buy, OrderType::Limit, 10, 1, "kept")).unwrap();
    let refused = book.add_order(order(Side::Buy, OrderType::Limit, 10, 0, "none"));
    assert_eq!(refused, Err(BookError::InvalidOrder));
    let refused = book.add_order(order(Side::Sell, OrderType::Market, 10, 0, "none"));
    assert_eq!(refused, Err(BookError::InvalidOrder));
    assert_eq!(ids(book.bids()), vec!["kept"]);
    assert!(book.asks().is_empty());
    assert_eq!(book.next_sequence(), 1);
}

#[test]
fn limit_order_without_price_is_refused() {
    let mut book = OrderBook::new();
    let refused = book.add_order(order(Side::Sell, OrderType::Limit, 0, 5, "free"));
    assert_eq!(refused, Err(BookError::InvalidOrder));
    assert!(book.asks().is_empty());
    assert_eq!(book.next_sequence(), 0);
}

#[test]
fn market_order_without_price_is_accepted() {
    let mut book = OrderBook::new();
    assert_eq!(book.add_order(order(Side::Sell, OrderType::Market, 0, 5, "m")), Ok(0));
    assert_eq!(ids(book.asks()), vec!["m"]);
}

#[test]
fn acceptable_orders() {
    assert!(order(Side::Buy, OrderType::Limit, 1, 1, "a").is_acceptable());
    assert!(order(Side::Buy, OrderType::Market, 0, 1, "a").is_acceptable());
    assert!(!order(Side::Buy, OrderType::Limit, 0, 1, "a").is_acceptable());
    assert!(!order(Side::Buy, OrderType::Limit, 1, 0, "a").is_acceptable());
    assert!(!order(Side::Buy, OrderType::Market, 1, 0, "a").is_acceptable());
}

#[test]
fn limits_of_orders() {
    assert_eq!(order(Side::Buy, OrderType::Limit, 42, 1, "a").limit(), 42);
    assert_eq!(order(Side::Sell, OrderType::Limit, 42, 1, "a").limit(), 42);
    assert_eq!(order(Side::Buy, OrderType::Market, 42, 1, "a").limit(), u64::MAX);
    assert_eq!(order(Side::Sell, OrderType::Market, 42, 1, "a").limit(), 0);
}

#[test]
fn priority_between_orders() {
    let mut early = order(Side::Buy, OrderType::Limit, 10, 1, "early");
    early.sequence = 1;
    let mut late = order(Side::Buy, OrderType::Limit, 10, 1, "late");
    late.sequence = 2;
    let mut high = order(Side::Buy, OrderType::Limit, 11, 1, "high");
    high.sequence = 3;
    assert!(early.precedes(&late));
    assert!(!late.precedes(&early));
    assert!(high.precedes(&early));
    assert!(!early.precedes(&high));
    assert!(!early.precedes(&early));

    let mut cheap = order(Side::Sell, OrderType::Limit, 9, 1, "cheap");
    cheap.sequence = 4;
    let mut dear = order(Side::Sell, OrderType::Limit, 10, 1, "dear");
    dear.sequence = 0;
    assert!(cheap.precedes(&dear));
    assert!(!dear.precedes(&cheap));
}

#[test]
fn opposite_sides() {
    assert_eq!(Side::Buy.opposite(), Side::Sell);
    assert_eq!(Side::Sell.opposite(), Side::Buy);
}

#[test]
fn crossed_when_best_bid_meets_best_ask() {
    let mut book = OrderBook::new();
    book.add_order(order(Side::Buy, OrderType::Limit, 9, 1, "b")).unwrap();
    assert!(!book.is_crossed());
    book.add_order(order(Side::Sell, OrderType::Limit, 10, 1, "a")).unwrap();
    assert!(!book.is_crossed());
    book.add_order(order(Side::Buy, OrderType::Limit, 10, 1, "b2")).unwrap();
    assert!(book.is_crossed());
}

#[test]
fn remove_takes_out_the_order_with_the_arrival_index() {
    let mut book = OrderBook::new();
    book.add_order(order(Side::Buy, OrderType::Limit, 10, 1, "b0")).unwrap();
    book.add_order(order(Side::Sell, OrderType::Limit, 20, 2, "a1")).unwrap();
    book.add_order(order(Side::Buy, OrderType::Limit, 11, 3, "b2")).unwrap();
    book.add_order(order(Side::Sell, OrderType::Limit, 21, 4, "a3")).unwrap();

    let gone = book.remove(1).unwrap();
    assert_eq!(gone.client_order_id, "a1");
    assert_eq!(gone.quantity, 2);
    assert_eq!(ids(book.asks()), vec!["a3"]);
    assert_eq!(ids(book.bids()), vec!["b2", "b0"]);

    let gone = book.remove(0).unwrap();
    assert_eq!(gone.client_order_id, "b0");
    assert_eq!(ids(book.bids()), vec!["b2"]);
    assert_eq!(book.next_sequence(), 4);
}

#[test]
fn remove_of_an_absent_order_changes_nothing() {
    let mut book = OrderBook::new();
    book.add_order(order(Side::Buy, OrderType::Limit, 10, 1, "b0")).unwrap();
    assert!(book.remove(5).is_none());
    assert!(book.remove(0).is_some());
    assert!(book.remove(0).is_none());
    assert!(book.bids().is_empty());
}

#[test]
fn side_selects_bids_or_asks() {
    let mut book = OrderBook::new();
    book.add_order(order(Side::Buy, OrderType::Limit, 10, 1, "b")).unwrap();
    book.add_order(order(Side::Sell, OrderType::Limit, 20, 1, "a")).unwrap();
    assert_eq!(ids(book.side(Side::Buy)), vec!["b"]);
    assert_eq!(ids(book.side(Side::Sell)), vec!["a"]);
}

#[test]
fn clear_empties_the_book() {
    let mut book = OrderBook::new();
    book.add_order(order(Side::Buy, OrderType::Limit, 10, 1, "b")).unwrap();
    book.add_order(order(Side::Sell, OrderType::Limit, 20, 1, "a")).unwrap();
    book.clear();
    assert!(book.bids().is_empty());
    assert!(book.asks().is_empty());
    assert_eq!(book.next_sequence(), 0);
}

#[test]
fn clones_are_equal() {
    let mut o = order(Side::Buy, OrderType::Limit, 10, 3, "b");
    o.sequence = 9;
    assert_eq!(o.clone(), o);
}
