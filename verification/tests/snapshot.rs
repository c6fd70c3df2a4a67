use matching_engine::book::OrderBook;
use matching_engine::matching::Matcher;
use matching_engine::order::{Order, OrderType, Side};
use matching_engine::snapshot::BookSnapshot;

fn resting(side: Side, price: u64, quantity: u64, sequence: u64) -> Order {
    Order {
        quantity,
        symbol: "ACME".to_string(),
        price,
        side,
        order_type: OrderType::Limit,
        client_order_id: format!("c{}", sequence),
        sequence,
    }
}

fn valid_snapshot() -> BookSnapshot {
    BookSnapshot {
        bids: vec![
            resting(Side::Buy, 10, 5, 3),
            resting(Side::Buy, 10, 2, 4),
            resting(Side::Buy, 9, 7, 0),
        ],
        asks: vec![resting(Side::Sell, 11, 1, 2), resting(Side::Sell, 12, 8, 1)],
        next_sequence: 6,
    }
}

#[test]
fn snapshot_holds_the_state_of_the_book() {
    let mut book = OrderBook::new();
    let bid = Order::new(5, "ACME".to_string(), 10, Side::Buy, OrderType::Limit, "b".to_string());
    let ask = Order::new(6, "ACME".to_string(), 11, Side::Sell, OrderType::Market, "a".to_string());
    book.add_order(bid).unwrap();
    book.add_order(ask).unwrap();
    let snapshot = book.to_snapshot();
    assert_eq!(snapshot.next_sequence, 2);
    assert_eq!(snapshot.bids.len(), 1);
    assert_eq!(snapshot.bids[0], book.bids()[0]);
    assert_eq!(snapshot.bids[0].client_order_id, "b");
    assert_eq!(snapshot.asks.len(), 1);
    assert_eq!(snapshot.asks[0], book.asks()[0]);
    assert_eq!(snapshot.asks[0].order_type, OrderType::Market);
    assert_eq!(snapshot.asks[0].sequence, 1);
}

#[test]
fn valid_snapshot_restores_to_the_book_it_describes() {
    let book = OrderBook::from_snapshot(valid_snapshot()).unwrap();
    assert_eq!(book.bids(), &valid_snapshot().bids);
    assert_eq!(book.asks(), &valid_snapshot().asks);
    assert_eq!(book.next_sequence(), 6);
}

#[test]
fn snapshot_round_trip_reproduces_the_book() {
    let mut book = OrderBook::new();
    for (side, price, quantity) in [
        (Side::Buy, 10, 5),
        (Side::Sell, 12, 4),
        (Side::Buy, 9, 3),
        (Side::Sell, 11, 2),
        (Side::Buy, 10, 1),
    ] {
        let symbol = "ACME".to_string();
        let order = Order::new(quantity, symbol, price, side, OrderType::Limit, "c".to_string());
        book.add_order(order).unwrap();
    }
    book.remove(2).unwrap();
    let snapshot = book.to_snapshot();
    let again = OrderBook::from_snapshot(book.to_snapshot()).unwrap();
    assert_eq!(again.to_snapshot(), snapshot);
    assert_eq!(again.bids(), book.bids());
    assert_eq!(again.asks(), book.asks());
    assert_eq!(again.next_sequence(), book.next_sequence());
}

#[test]
fn restored_book_behaves_as_the_book_it_was_taken_of() {
    for matcher in [Matcher::Fifo, Matcher::ProRata] {
        let mut book = OrderBook::from_snapshot(valid_snapshot()).unwrap();
        let mut again = OrderBook::from_snapshot(book.to_snapshot()).unwrap();
        let symbol = "ACME".to_string();
        let taker = Order::new(9, symbol, 9, Side::Sell, OrderType::Limit, "t".to_string());
        let fills = matcher.submit(&mut book, taker.clone()).unwrap();
        let fills_again = matcher.submit(&mut again, taker).unwrap();
        assert_eq!(fills.len(), 3);
        assert_eq!(fills, fills_again);
        assert_eq!(book.to_snapshot(), again.to_snapshot());
    }
}

#[test]
fn empty_snapshot_restores_to_an_empty_book() {
    let snapshot = BookSnapshot { bids: vec![], asks: vec![], next_sequence: 0 };
    let book = OrderBook::from_snapshot(snapshot).unwrap();
    assert!(book.bids().is_empty());
    assert!(book.asks().is_empty());
}

#[test]
fn snapshot_out_of_price_order_is_refused() {
    let mut snapshot = valid_snapshot();
    snapshot.bids.swap(0, 2);
    assert!(OrderBook::from_snapshot(snapshot).is_none());
    let mut snapshot = valid_snapshot();
    snapshot.asks.swap(0, 1);
    assert!(OrderBook::from_snapshot(snapshot).is_none());
}

#[test]
fn snapshot_out_of_arrival_order_is_refused() {
    let mut snapshot = valid_snapshot();
    snapshot.bids.swap(0, 1);
    assert!(OrderBook::from_snapshot(snapshot).is_none());
}

#[test]
fn snapshot_with_an_empty_order_is_refused() {
    let mut snapshot = valid_snapshot();
    snapshot.asks[1].quantity = 0;
    assert!(OrderBook::from_snapshot(snapshot).is_none());
}

#[test]
fn snapshot_with_a_limit_order_without_price_is_refused() {
    let snapshot =
        BookSnapshot { bids: vec![], asks: vec![resting(Side::Sell, 0, 4, 0)], next_sequence: 1 };
    assert!(OrderBook::from_snapshot(snapshot).is_none());
}

#[test]
fn snapshot_with_an_order_on_the_wrong_side_is_refused() {
    let mut snapshot = valid_snapshot();
    snapshot.asks[0].side = Side::Buy;
    assert!(OrderBook::from_snapshot(snapshot).is_none());
}

#[test]
fn snapshot_with_a_repeated_arrival_index_is_refused() {
    let mut snapshot = valid_snapshot();
    snapshot.bids[2].sequence = 3;
    assert!(OrderBook::from_snapshot(snapshot).is_none());
    let mut snapshot = valid_snapshot();
    snapshot.asks[1].sequence = 0;
    assert!(OrderBook::from_snapshot(snapshot).is_none());
}

#[test]
fn snapshot_with_an_arrival_index_not_given_out_yet_is_refused() {
    let mut snapshot = valid_snapshot();
    snapshot.next_sequence = 4;
    assert!(OrderBook::from_snapshot(snapshot).is_none());
    let mut snapshot = valid_snapshot();
    snapshot.next_sequence = 5;
    assert!(OrderBook::from_snapshot(snapshot).is_some());
}
