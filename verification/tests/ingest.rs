use matching_engine::ingest::{
    create_order_book, create_order_from_string, parse_number, parse_order_type, parse_side,
    split_text,
};
use matching_engine::order::{Order, OrderType, Side};

#[test]
fn split_text_cuts_at_every_separator() {
    assert_eq!(split_text("a b c", ' '), vec!["a", "b", "c"]);
    assert_eq!(split_text("one\ntwo", '\n'), vec!["one", "two"]);
    assert_eq!(split_text("no separator", ','), vec!["no separator"]);
}

#[test]
fn split_text_keeps_empty_pieces() {
    assert_eq!(split_text("", ' '), vec![""]);
    assert_eq!(split_text(" ", ' '), vec!["", ""]);
    assert_eq!(split_text("a  b", ' '), vec!["a", "", "b"]);
    assert_eq!(split_text("a\n", '\n'), vec!["a", ""]);
    assert_eq!(split_text("\na", '\n'), vec!["", "a"]);
}

#[test]
fn split_text_handles_text_beyond_ascii() {
    assert_eq!(split_text("é ü", ' '), vec!["é", "ü"]);
}

#[test]
fn parse_number_reads_decimal_digits() {
    assert_eq!(parse_number("0"), Some(0));
    assert_eq!(parse_number("7"), Some(7));
    assert_eq!(parse_number("1024"), Some(1024));
    assert_eq!(parse_number("007"), Some(7));
}

#[test]
fn parse_number_reads_up_to_the_largest_value() {
    assert_eq!(parse_number("18446744073709551615"), Some(u64::MAX));
    assert_eq!(parse_number("18446744073709551616"), None);
    assert_eq!(parse_number("18446744073709551620"), None);
    assert_eq!(parse_number("99999999999999999999999"), None);
    assert_eq!(parse_number("00018446744073709551615"), Some(u64::MAX));
}

#[test]
fn parse_number_refuses_anything_else() {
    assert_eq!(parse_number(""), None);
    assert_eq!(parse_number("12a"), None);
    assert_eq!(parse_number("a12"), None);
    assert_eq!(parse_number("-1"), None);
    assert_eq!(parse_number("+1"), None);
    assert_eq!(parse_number("1.5"), None);
    assert_eq!(parse_number(" 1"), None);
    assert_eq!(parse_number("١٢"), None);
}

#[test]
fn parse_side_reads_the_two_names() {
    assert_eq!(parse_side("Buy"), Some(Side::Buy));
    assert_eq!(parse_side("Sell"), Some(Side::Sell));
    assert_eq!(parse_side("buy"), None);
    assert_eq!(parse_side("Sell "), None);
    assert_eq!(parse_side(""), None);
}

#[test]
fn parse_order_type_reads_the_two_names() {
    assert_eq!(parse_order_type("Limit"), Some(OrderType::Limit));
    assert_eq!(parse_order_type("Market"), Some(OrderType::Market));
    assert_eq!(parse_order_type("limit"), None);
    assert_eq!(parse_order_type("Stop"), None);
}

#[test]
fn line_of_five_fields_is_an_order() {
    let order = create_order_from_string("100 ACME 25 Buy Limit").unwrap();
    let expected = Order {
        quantity: 100,
        symbol: "ACME".to_string(),
        price: 25,
        side: Side::Buy,
        order_type: OrderType::Limit,
        client_order_id: String::new(),
        sequence: 0,
    };
    assert_eq!(order, expected);
    let order = create_order_from_string("3 X 0 Sell Market").unwrap();
    assert_eq!(order.side, Side::Sell);
    assert_eq!(order.order_type, OrderType::Market);
    assert_eq!(order.quantity, 3);
    assert_eq!(order.price, 0);
    assert_eq!(order.symbol, "X");
}

#[test]
fn line_with_another_number_of_fields_is_no_order() {
    assert!(create_order_from_string("").is_none());
    assert!(create_order_from_string("100 ACME 25 Buy").is_none());
    assert!(create_order_from_string("100 ACME 25 Buy Limit extra").is_none());
    assert!(create_order_from_string("100 ACME 25 Buy Limit ").is_none());
    assert!(create_order_from_string("100  ACME 25 Buy Limit").is_none());
}

#[test]
fn line_with_a_field_that_cannot_be_read_is_no_order() {
    assert!(create_order_from_string("ten ACME 25 Buy Limit").is_none());
    assert!(create_order_from_string("100 ACME 2.5 Buy Limit").is_none());
    assert!(create_order_from_string("100 ACME 25 Bid Limit").is_none());
    assert!(create_order_from_string("100 ACME 25 Buy Stop").is_none());
    assert!(create_order_from_string("100 ACME 25 Buy Limit\r").is_none());
}

#[test]
fn line_may_carry_an_empty_symbol() {
    let order = create_order_from_string("100  25 Buy Limit").unwrap();
    assert_eq!(order.symbol, "");
}

#[test]
fn book_is_built_from_the_valid_lines_in_order() {
    let text = "5 ACME 10 Buy Limit\n\
                malformed line\n\
                4 ACME 12 Sell Limit\n\
                0 ACME 10 Buy Limit\n\
                3 ACME 11 Buy Limit\n\
                2 ACME 10 Buy Limit\n\
                1 ACME 0 Sell Limit\n";
    let book = create_order_book(text);
    let bids: Vec<(u64, u64, u64)> =
        book.bids().iter().map(|o| (o.price, o.quantity, o.sequence)).collect();
    let asks: Vec<(u64, u64, u64)> =
        book.asks().iter().map(|o| (o.price, o.quantity, o.sequence)).collect();
    assert_eq!(bids, vec![(11, 3, 2), (10, 5, 0), (10, 2, 3)]);
    assert_eq!(asks, vec![(12, 4, 1)]);
    assert_eq!(book.next_sequence(), 4);
}

#[test]
fn ingestion_does_not_match() {
    let book = create_order_book("5 ACME 10 Buy Limit\n5 ACME 9 Sell Limit");
    assert!(book.is_crossed());
    assert_eq!(book.bids().len(), 1);
    assert_eq!(book.asks().len(), 1);
}

#[test]
fn empty_text_gives_an_empty_book() {
    let book = create_order_book("");
    assert!(book.bids().is_empty());
    assert!(book.asks().is_empty());
    assert_eq!(book.next_sequence(), 0);
}
