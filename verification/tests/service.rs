use matching_engine::matcher::get_matcher;
use matching_engine::matching::Matcher;
use matching_engine::order::{Order, OrderType, Side};
use matching_engine::service::{
    add_order, index, malformed, not_found, reset, upload, upload_reply, SubmitError,
};
use matching_engine::snapshot::BookSnapshot;

fn limit(side: Side, price: u64, quantity: u64, id: &str) -> Order {
    Order::new(quantity, "ACME".to_string(), price, side, OrderType::Limit, id.to_string())
}

#[test]
fn index_greets() {
    assert_eq!(index(), "Please fill the form");
}

#[test]
fn not_found_names_the_path() {
    assert_eq!(
        not_found("/nowhere?x=1"),
        "Oh no! We couldn't find the requested path '/nowhere?x=1'"
    );
    assert_eq!(not_found(""), "Oh no! We couldn't find the requested path ''");
}

#[test]
fn malformed_describes_the_request() {
    assert_eq!(
        malformed("POST /order_entry"),
        "the submitted data could not be processed! 'POST /order_entry'"
    );
}

#[test]
fn reset_confirms_a_deletion() {
    assert_eq!(reset(true), "Order book deleted successfully");
    assert_eq!(reset(false), "");
}

#[test]
fn upload_reply_carries_the_snapshot() {
    assert_eq!(upload_reply("{\"bids\":[]}"), "Order file persisted{\"bids\":[]}");
    assert_eq!(upload_reply(""), "Order file persisted");
}

#[test]
fn matcher_is_selected_by_name() {
    assert_eq!(get_matcher("Pro-Rata"), Matcher::ProRata);
    assert_eq!(get_matcher("FIFO"), Matcher::Fifo);
    assert_eq!(get_matcher(""), Matcher::Fifo);
    assert_eq!(get_matcher("pro-rata"), Matcher::Fifo);
    assert_eq!(get_matcher("anything"), Matcher::Fifo);
}

#[test]
fn first_submission_starts_an_empty_book() {
    let (snapshot, fills) = add_order(None, limit(Side::Buy, 10, 5, "b"), "FIFO").unwrap();
    assert!(fills.is_empty());
    assert_eq!(snapshot.bids.len(), 1);
    assert_eq!(snapshot.bids[0].client_order_id, "b");
    assert_eq!(snapshot.bids[0].sequence, 0);
    assert!(snapshot.asks.is_empty());
    assert_eq!(snapshot.next_sequence, 1);
}

#[test]
fn submission_matches_against_the_stored_book() {
    let (stored, _) = add_order(None, limit(Side::Buy, 10, 4, "m1"), "FIFO").unwrap();
    let (stored, _) = add_order(Some(stored), limit(Side::Buy, 10, 4, "m2"), "FIFO").unwrap();
    let again = BookSnapshot {
        bids: stored.bids.clone(),
        asks: stored.asks.clone(),
        next_sequence: stored.next_sequence,
    };

    let (after, fills) = add_order(Some(stored), limit(Side::Sell, 10, 6, "t"), "FIFO").unwrap();
    assert_eq!(fills.iter().map(|f| f.quantity).collect::<Vec<u64>>(), vec![4, 2]);
    assert_eq!(after.bids.iter().map(|o| o.quantity).collect::<Vec<u64>>(), vec![2]);
    assert!(after.asks.is_empty());
    assert_eq!(after.next_sequence, 3);

    let (after, fills) = add_order(Some(again), limit(Side::Sell, 10, 6, "t"), "Pro-Rata").unwrap();
    assert_eq!(fills.iter().map(|f| f.quantity).collect::<Vec<u64>>(), vec![3, 3]);
    assert_eq!(after.bids.iter().map(|o| o.quantity).collect::<Vec<u64>>(), vec![1, 1]);
    assert!(after.asks.is_empty());
}

#[test]
fn submission_to_a_malformed_book_fails() {
    let mut late = limit(Side::Buy, 10, 4, "late");
    late.sequence = 1;
    let mut early = limit(Side::Buy, 10, 4, "early");
    early.sequence = 0;
    let stored = BookSnapshot { bids: vec![late, early], asks: vec![], next_sequence: 2 };
    let outcome = add_order(Some(stored), limit(Side::Sell, 10, 6, "t"), "FIFO");
    assert_eq!(outcome.err(), Some(SubmitError::MalformedBook));
}

#[test]
fn submission_of_an_invalid_order_fails() {
    let outcome = add_order(None, limit(Side::Sell, 10, 0, "t"), "FIFO");
    assert_eq!(outcome.err(), Some(SubmitError::InvalidOrder));
    let outcome = add_order(None, limit(Side::Sell, 0, 5, "t"), "Pro-Rata");
    assert_eq!(outcome.err(), Some(SubmitError::InvalidOrder));
}

#[test]
fn submission_fails_when_no_arrival_index_is_left() {
    let stored = BookSnapshot { bids: vec![], asks: vec![], next_sequence: u64::MAX };
    let outcome = add_order(Some(stored), limit(Side::Sell, 10, 5, "t"), "FIFO");
    assert_eq!(outcome.err(), Some(SubmitError::SequenceExhausted));

    let stored = BookSnapshot { bids: vec![], asks: vec![], next_sequence: u64::MAX - 1 };
    let (after, _) = add_order(Some(stored), limit(Side::Sell, 10, 5, "t"), "FIFO").unwrap();
    assert_eq!(after.asks[0].sequence, u64::MAX - 1);
    assert_eq!(after.next_sequence, u64::MAX);
}

#[test]
fn upload_builds_the_resting_book() {
    let snapshot = upload("5 ACME 10 Buy Limit\nnot an order\n4 ACME 12 Sell Market\n");
    assert_eq!(snapshot.bids.len(), 1);
    assert_eq!(snapshot.bids[0].quantity, 5);
    assert_eq!(snapshot.bids[0].symbol, "ACME");
    assert_eq!(snapshot.asks.len(), 1);
    assert_eq!(snapshot.asks[0].order_type, OrderType::Market);
    assert_eq!(snapshot.asks[0].sequence, 1);
    assert_eq!(snapshot.next_sequence, 2);
}
