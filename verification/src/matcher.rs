//! The executable matchers.

use crate::allocation::{fifo_allocate, nats, prorata_allocate, total};
use crate::arrival::taken_by;
use crate::book::{BookError, OrderBook};
use crate::book_view::{resting_quantity, side_wf};
use crate::matching::{filled_quantity, fills_of, lemma_level, level_quantities, Matcher};
use crate::order::{fill_views, order_views, Fill, Order, Side};
use vstd::prelude::*;
use vstd::string::StringExecFns;

verus! {

/// The matcher that a configuration value selects: `"Pro-Rata"` selects
/// proportional allocation, every other value price-time priority.
pub open spec fn matcher_for(algo: Seq<char>) -> Matcher {
    if algo == "Pro-Rata"@ {
        Matcher::ProRata
    } else {
        Matcher::Fifo
    }
}

/// The matcher that a configuration value selects.
pub fn get_matcher(algo: &str) -> (r: Matcher)
    ensures
        r == matcher_for(algo@),
{
    let chosen = String::from_str(algo);
    let prorata = String::from_str("Pro-Rata");
    if chosen == prorata {
        Matcher::ProRata
    } else {
        Matcher::Fifo
    }
}

/// The quantities resting at the best price of a side, oldest order first,
/// and their total.
fn best_level(orders: &Vec<Order>, side: Side) -> (r: (Vec<u64>, u128))
    requires
        orders.len() > 0,
        side_wf(order_views(orders@), side),
    ensures
        nats(r.0@) == level_quantities(order_views(orders@)),
        r.1 == total(nats(r.0@)),
{
    let ghost s = order_views(orders@);
    proof {
        lemma_level(s, side);
    }
    let p: u64 = orders[0].limit();
    let mut qs: Vec<u64> = Vec::new();
    let mut big: u128 = 0;
    let mut k: usize = 0;
    while k < orders.len() && orders[k].limit() == p
        invariant
            k <= orders.len(),
            s == order_views(orders@),
            qs.len() == k,
            p == s[0].limit(),
            forall|j: int| 0 <= j < k ==> (#[trigger] s[j]).limit() == p,
            forall|j: int| 0 <= j < k ==> #[trigger] qs[j] == s[j].quantity,
            big == total(nats(qs@)),
            big <= k * u64::MAX,
        decreases orders.len() - k,
    {
        let ghost before = nats(qs@);
        qs.push(orders[k].quantity);
        assert(nats(qs@).drop_last() =~= before);
        big = big + orders[k].quantity as u128;
        k += 1;
    }
    proof {
        if k > 0 {
            assert(s[k - 1].limit() == s[0].limit());
        }
        if k < orders.len() {
            assert(s[k as int].limit() != s[0].limit());
        }
        assert(nats(qs@) =~= level_quantities(s));
    }
    (qs, big)
}

/// Appends to `fills` the fills between `taker` and the makers that give
/// something, oldest maker first.
fn record_fills(taker: &Order, makers: &Vec<Order>, takes: &Vec<u64>, fills: &mut Vec<Fill>)
    requires
        takes.len() <= makers.len(),
    ensures
        fill_views(final(fills)@) == fill_views(old(fills)@) + fills_of(
            taker@,
            order_views(makers@),
            nats(takes@),
            old(fills)@.len(),
            takes.len() as int,
        ),
{
    let ghost recorded = fill_views(fills@);
    let ghost first = fills@.len();
    let ghost mv = order_views(makers@);
    let ghost a = nats(takes@);
    let mut c: usize = 0;
    while c < takes.len()
        invariant
            c <= takes.len(),
            takes.len() <= makers.len(),
            a == nats(takes@),
            mv == order_views(makers@),
            fills.len() == first + fills_of(taker@, mv, a, first, c as int).len(),
            fills.len() <= first + c,
            fill_views(fills@) =~= recorded + fills_of(taker@, mv, a, first, c as int),
        decreases takes.len() - c,
    {
        let q: u64 = takes[c];
        if q > 0 {
            let ghost so_far = fill_views(fills@);
            let fill = Fill {
                taker_order_id: taker.client_order_id.clone(),
                maker_order_id: makers[c].client_order_id.clone(),
                price: makers[c].limit(),
                quantity: q,
                sequence: fills.len() as u64,
            };
            fills.push(fill);
            assert(fill_views(fills@) =~= so_far.push(fill@));
        }
        c += 1;
    }
}

impl Matcher {
    /// Divides `t` among the makers of a level that hold `qs`, oldest first.
    /// Proportional allocation is defined for a level that holds something
    /// and for no more than the level holds.
    pub fn allocate(&self, qs: &Vec<u64>, t: u64) -> (a: Vec<u64>)
        requires
            *self == Matcher::ProRata ==> total(nats(qs@)) > 0 && t <= total(nats(qs@)),
        ensures
            nats(a@) == self.allocation(nats(qs@), t as nat),
    {
        match self {
            Matcher::Fifo => fifo_allocate(qs, t),
            Matcher::ProRata => prorata_allocate(qs, t),
        }
    }

    /// Plays one round on a crossed book and appends its fills to `fills`.
    fn match_round(&self, book: &mut OrderBook, fills: &mut Vec<Fill>)
        requires
            old(book)@.crossed(),
        ensures
            final(book)@ == self.round(old(book)@),
            fill_views(final(fills)@) == fill_views(old(fills)@) + self.round_fills(
                old(book)@,
                old(fills)@.len(),
            ),
    {
        proof {
            use_type_invariant(&*book);
        }
        let ghost b = book@;
        let side = if book.bids()[0].sequence > book.asks()[0].sequence {
            Side::Buy
        } else {
            Side::Sell
        };
        let other = side.opposite();
        let takers = book.side(side);
        let makers = book.side(other);
        assert(side == b.taker_side());
        assert(order_views(makers@) == b.makers());
        proof {
            self.lemma_round(b);
        }
        let (qs, big) = best_level(makers, other);
        let held: u64 = takers[0].quantity;
        let t: u64 = if held as u128 <= big {
            held
        } else {
            big as u64
        };
        assert(t == b.round_quantity());
        let takes = self.allocate(&qs, t);
        assert(nats(takes@) == self.round_allocation(b));
        record_fills(&takers[0], makers, &takes, fills);
        let mut taken: Vec<u64> = Vec::new();
        taken.push(t);
        assert(nats(taken@) =~= seq![t as nat]);
        assert forall|i: int| 0 <= i < takes.len() implies takes[i] <= (
        #[trigger] b.makers()[i]).quantity by {
            assert(self.round_allocation(b)[i] <= b.makers()[i].quantity);
        }
        book.consume(side, &taken);
        assert(book@.side(other) == b.makers());
        book.consume(other, &takes);
    }

    /// Runs a matching pass: rounds are played until the book is no longer
    /// crossed. Returns the fills in the order in which they occurred. A
    /// book that is not crossed stays as it is and yields no fill.
    pub fn match_order_book(&self, book: &mut OrderBook) -> (fills: Vec<Fill>)
        ensures
            final(book)@ == self.settled(old(book)@),
            fill_views(fills@) == self.fills(old(book)@, 0),
            final(book)@.wf(),
            !final(book)@.crossed(),
            resting_quantity(final(book)@.bids) + filled_quantity(fill_views(fills@))
                == resting_quantity(old(book)@.bids),
            resting_quantity(final(book)@.asks) + filled_quantity(fill_views(fills@))
                == resting_quantity(old(book)@.asks),
    {
        proof {
            use_type_invariant(&*book);
        }
        let ghost start = book@;
        let mut fills: Vec<Fill> = Vec::new();
        assert(fill_views(fills@) =~= Seq::empty());
        while book.is_crossed()
            invariant
                book@.wf(),
                start.wf(),
                self.settled(book@) == self.settled(start),
                fill_views(fills@) + self.fills(book@, fills@.len()) =~= self.fills(start, 0),
            decreases book@.resting(),
        {
            proof {
                self.lemma_round(book@);
            }
            self.match_round(book, &mut fills);
        }
        proof {
            self.lemma_pass(start, 0);
            assert(fill_views(fills@) =~= self.fills(start, 0));
        }
        fills
    }

    /// Lets `order` arrive at the book and runs a matching pass. An order
    /// that the book refuses changes nothing. The book is not crossed
    /// afterwards. If it was not crossed before, the order is the taker of
    /// every fill, and there are no more fills than orders rested on the
    /// opposite side.
    pub fn submit(&self, book: &mut OrderBook, order: Order) -> (r: Result<Vec<Fill>, BookError>)
        requires
            old(book)@.next_sequence < u64::MAX,
        ensures
            final(book)@.wf(),
            match r {
                Ok(fills) => {
                    &&& order@.acceptable()
                    &&& final(book)@ == self.settled(old(book)@.inserted(order@))
                    &&& fill_views(fills@) == self.fills(old(book)@.inserted(order@), 0)
                    &&& !final(book)@.crossed()
                    &&& !old(book)@.crossed() ==> {
                        &&& taken_by(fill_views(fills@), order@.client_order_id)
                        &&& filled_quantity(fill_views(fills@)) <= order@.quantity
                        &&& fills@.len() <= old(book)@.side(order.side.spec_opposite()).len()
                    }
                },
                Err(e) => {
                    &&& e == BookError::InvalidOrder
                    &&& !order@.acceptable()
                    &&& final(book)@ == old(book)@
                },
            },
    {
        proof {
            use_type_invariant(&*book);
            if order@.acceptable() && !book@.crossed() {
                self.lemma_arrival_takes(book@, order@, 0);
            }
        }
        match book.add_order(order) {
            Ok(_) => Ok(self.match_order_book(book)),
            Err(e) => Err(e),
        }
    }
}

} // verus!
