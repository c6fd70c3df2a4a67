use matching_engine::book::OrderBook;
use matching_engine::matching::Matcher;
use matching_engine::order::{Fill, Order, OrderType, Side};

/// A small generator of repeatable pseudo-random numbers.
struct Numbers(u64);

impl Numbers {
    fn next(&mut self, bound: u64) -> u64 {
        self.0 = self.0.wrapping_mul(6364136223846793005).wrapping_add(1442695040888963407);
        (self.0 >> 33) % bound
    }
}

fn random_order(numbers: &mut Numbers, id: u64) -> Order {
    let side = if numbers.next(2) == 0 { Side::Buy } else { Side::Sell };
    let order_type = if numbers.next(10) == 0 { OrderType::Market } else { OrderType::Limit };
    let price = 95 + numbers.next(11);
    let quantity = 1 + numbers.next(40);
    Order::new(quantity, "ACME".to_string(), price, side, order_type, format!("c{}", id))
}

fn resting(orders: &Vec<Order>) -> u64 {
    orders.iter().map(|o| o.quantity).sum()
}

fn traded(fills: &Vec<Fill>) -> u64 {
    fills.iter().map(|f| f.quantity).sum()
}

fn assert_side_in_priority(orders: &Vec<Order>, side: Side) {
    for o in orders {
        assert_eq!(o.side, side);
        assert!(o.quantity > 0);
    }
    for pair in orders.windows(2) {
        assert!(pair[0].precedes(&pair[1]));
    }
}

fn run(matcher: Matcher, seed: u64) {
    let mut numbers = Numbers(seed);
    let mut book = OrderBook::new();
    for id in 0..200 {
        let order = random_order(&mut numbers, id);
        let own = order.side;
        let quantity = order.quantity;
        let limit = order.limit();
        let name = order.client_order_id.clone();
        let own_before: Vec<Order> = book.side(own).clone();
        let other_before = resting(book.side(own.opposite()));
        let opposing: Vec<Order> = book.side(own.opposite()).clone();
        let best_before = book.side(own.opposite()).first().map(|o| o.limit());

        let fills = matcher.submit(&mut book, order).unwrap();

        assert!(!book.is_crossed());
        assert_side_in_priority(book.bids(), Side::Buy);
        assert_side_in_priority(book.asks(), Side::Sell);
        assert_eq!(book.next_sequence(), id + 1);

        // Conservation: the arrival, the makers and the fills agree.
        let given = traded(&fills);
        assert!(given <= quantity);
        assert_eq!(other_before - resting(book.side(own.opposite())), given);
        assert_eq!(resting(&own_before) + quantity - resting(book.side(own)), given);

        // The arrival trades all it can: all it holds, or all that is within its limit.
        let reach: u64 = opposing
            .iter()
            .filter(|o| match own {
                Side::Buy => limit >= o.limit(),
                Side::Sell => o.limit() >= limit,
            })
            .map(|o| o.quantity)
            .sum();
        assert_eq!(given, quantity.min(reach));
        assert!(fills.len() <= opposing.len());

        // Under price-time priority the pass walks the opposite side from the front.
        if matcher == Matcher::Fifo {
            let mut left = given;
            let mut expected: Vec<Order> = Vec::new();
            let mut expected_fills: Vec<(String, u64, u64)> = Vec::new();
            for o in &opposing {
                let take = left.min(o.quantity);
                left -= take;
                if take > 0 {
                    expected_fills.push((o.client_order_id.clone(), o.limit(), take));
                }
                if take < o.quantity {
                    let mut rest = o.clone();
                    rest.quantity -= take;
                    expected.push(rest);
                }
            }
            assert_eq!(book.side(own.opposite()), &expected);
            let seen: Vec<(String, u64, u64)> =
                fills.iter().map(|f| (f.maker_order_id.clone(), f.price, f.quantity)).collect();
            assert_eq!(seen, expected_fills);
        }

        // The arrival is the taker of every fill; fills are numbered in order.
        for (i, fill) in fills.iter().enumerate() {
            assert_eq!(fill.taker_order_id, name);
            assert_eq!(fill.sequence, i as u64);
            assert!(fill.quantity > 0);
            match own {
                Side::Buy => assert!(fill.price <= limit),
                Side::Sell => assert!(fill.price >= limit),
            }
        }
        // Prices get no better for the taker as the pass goes on, and the
        // first fill is struck at the best opposing price.
        if let Some(first) = fills.first() {
            assert_eq!(Some(first.price), best_before);
        }
        for pair in fills.windows(2) {
            match own {
                Side::Buy => assert!(pair[0].price <= pair[1].price),
                Side::Sell => assert!(pair[0].price >= pair[1].price),
            }
        }
        // The orders that rested beside the arrival are untouched.
        let others: Vec<Order> =
            book.side(own).iter().filter(|o| o.sequence != id).cloned().collect();
        assert_eq!(others, own_before);
    }
}

#[test]
fn random_submissions_under_price_time_priority_keep_the_laws() {
    for seed in 1..=20 {
        run(Matcher::Fifo, seed);
    }
}

#[test]
fn random_submissions_under_proportional_allocation_keep_the_laws() {
    for seed in 1..=20 {
        run(Matcher::ProRata, seed);
    }
}

#[test]
fn random_snapshots_restore_to_the_same_book() {
    let mut numbers = Numbers(77);
    let mut book = OrderBook::new();
    for id in 0..300 {
        let order = random_order(&mut numbers, id);
        Matcher::ProRata.submit(&mut book, order).unwrap();
        let again = OrderBook::from_snapshot(book.to_snapshot()).unwrap();
        assert_eq!(again.bids(), book.bids());
        assert_eq!(again.asks(), book.asks());
        assert_eq!(again.next_sequence(), book.next_sequence());
    }
}
