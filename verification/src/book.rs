//! The executable order book.
//!
//! An [`OrderBook`] owns the resting orders of both sides. That its state is
//! well formed ([`BookView::wf`]) is an invariant of the type: no function
//! has to ask for it, and every function may rely on it.

use crate::allocation::nats;
use crate::book_view::{
    consumed, lemma_consumed, lemma_remove_side_wf, lemma_slot, side_wf, slot, survivors, BookView,
};
use crate::order::{order_views, Order, Side};
use vstd::prelude::*;

verus! {

/// Why a book refused an order.
#[derive(Clone, Copy, Debug, PartialEq, Eq, Structural)]
pub enum BookError {
    /// The order has no quantity, or it is a limit order without a price.
    InvalidOrder,
}

/// A single-instrument order book: resting bids and asks in price-time
/// priority, and the arrival index of the next order.
#[derive(Debug)]
pub struct OrderBook {
    bids: Vec<Order>,
    asks: Vec<Order>,
    next_sequence: u64,
}

impl View for OrderBook {
    type V = BookView;

    closed spec fn view(&self) -> BookView {
        BookView {
            bids: order_views(self.bids@),
            asks: order_views(self.asks@),
            next_sequence: self.next_sequence as nat,
        }
    }
}

/// The index of the order of `v` that carries the arrival index `sequence`.
fn position(v: &Vec<Order>, sequence: u64) -> (r: Option<usize>)
    ensures
        match r {
            Some(i) => i < v.len() && v[i as int].sequence == sequence,
            None => forall|j: int| 0 <= j < v.len() ==> (#[trigger] v[j]).sequence != sequence,
        },
{
    let mut i: usize = 0;
    while i < v.len()
        invariant
            i <= v.len(),
            forall|j: int| 0 <= j < i ==> (#[trigger] v[j]).sequence != sequence,
        decreases v.len() - i,
    {
        if v[i].sequence == sequence {
            return Some(i);
        }
        i += 1;
    }
    None
}

/// Puts `order` into its slot on a side: behind every order that is served
/// before it. The slot is found by bisection.
fn insert_by_priority(v: &mut Vec<Order>, order: Order)
    requires
        side_wf(order_views(old(v)@), order.side),
    ensures
        order_views(final(v)@) == order_views(old(v)@).insert(
            slot(order_views(old(v)@), order@) as int,
            order@,
        ),
{
    let ghost s = order_views(v@);
    proof {
        lemma_slot(s, order@, order.side);
    }
    let mut low: usize = 0;
    let mut high: usize = v.len();
    while low < high
        invariant
            low <= slot(s, order@) <= high <= v.len(),
            s == order_views(v@),
            forall|i: int|
                0 <= i < s.len() ==> ((#[trigger] s[i]).precedes(order@) <==> i < slot(s, order@)),
        decreases high - low,
    {
        let middle: usize = low + (high - low) / 2;
        assert(v[middle as int]@ == s[middle as int]);
        if v[middle].precedes(&order) {
            low = middle + 1;
        } else {
            high = middle;
        }
    }
    v.insert(low, order);
    assert(order_views(v@) =~= s.insert(low as int, order@));
}

/// Takes `takes[c]` units from order `c` of a side, for each `c` below the
/// length of `takes`, and drops the orders that are left with nothing.
fn consume_side(v: &mut Vec<Order>, takes: &Vec<u64>)
    requires
        takes.len() <= old(v).len(),
    ensures
        order_views(final(v)@) == consumed(order_views(old(v)@), nats(takes@)),
{
    let ghost s = order_views(v@);
    let ghost a = nats(takes@);
    let mut i: usize = 0;
    let mut c: usize = 0;
    while c < takes.len()
        invariant
            c <= takes.len(),
            takes.len() <= s.len(),
            a == nats(takes@),
            i == survivors(s, a, c as int).len(),
            v.len() == i + (s.len() - c),
            order_views(v@) =~= survivors(s, a, c as int) + s.skip(c as int),
        decreases takes.len() - c,
    {
        let take: u64 = takes[c];
        let held: u64 = v[i].quantity;
        assert(v[i as int]@ == s[c as int]) by {
            let done = survivors(s, a, c as int);
            assert(order_views(v@)[i as int] == (done + s.skip(c as int))[i as int]);
        }
        let ghost before = order_views(v@);
        if take >= held {
            v.remove(i);
            assert(order_views(v@) =~= before.remove(i as int));
        } else {
            v[i].quantity = held - take;
            assert(order_views(v@) =~= before.update(i as int, s[c as int].reduced(take as nat)));
            i += 1;
        }
        c += 1;
        assert(order_views(v@) =~= survivors(s, a, c as int) + s.skip(c as int));
    }
}

impl OrderBook {
    /// What holds of every book at all times: its state is well formed.
    #[verifier::type_invariant]
    pub open spec fn well_formed(&self) -> bool {
        self@.wf()
    }

    /// An empty book.
    pub fn new() -> (r: OrderBook)
        ensures
            r@ == (BookView { bids: Seq::empty(), asks: Seq::empty(), next_sequence: 0 }),
            r@.wf(),
    {
        let r = OrderBook { bids: Vec::new(), asks: Vec::new(), next_sequence: 0 };
        assert(order_views(r.bids@) =~= Seq::empty());
        assert(order_views(r.asks@) =~= Seq::empty());
        r
    }

    /// Takes the orders of one side out of the book and leaves the side empty.
    fn take_side(&mut self, side: Side) -> (v: Vec<Order>)
        ensures
            order_views(v@) == old(self)@.side(side),
            final(self)@ == old(self)@.with_side(side, Seq::empty()),
    {
        proof {
            use_type_invariant(&*self);
            self@.lemma_with_side_wf(side, Seq::empty());
            assert(order_views(Seq::<Order>::empty()) =~= Seq::empty());
        }
        let mut v: Vec<Order> = Vec::new();
        match side {
            Side::Buy => core::mem::swap(&mut self.bids, &mut v),
            Side::Sell => core::mem::swap(&mut self.asks, &mut v),
        }
        v
    }

    /// Puts `v` in the place of one side of the book.
    fn put_side(&mut self, side: Side, v: Vec<Order>)
        requires
            old(self)@.with_side(side, order_views(v@)).wf(),
        ensures
            final(self)@ == old(self)@.with_side(side, order_views(v@)),
    {
        match side {
            Side::Buy => {
                self.bids = v;
            },
            Side::Sell => {
                self.asks = v;
            },
        }
    }

    /// The book that holds the given sides.
    pub(crate) fn from_parts(bids: Vec<Order>, asks: Vec<Order>, next_sequence: u64) -> (r:
        OrderBook)
        requires
            (BookView {
                bids: order_views(bids@),
                asks: order_views(asks@),
                next_sequence: next_sequence as nat,
            }).wf(),
        ensures
            r@ == (BookView {
                bids: order_views(bids@),
                asks: order_views(asks@),
                next_sequence: next_sequence as nat,
            }),
    {
        OrderBook { bids, asks, next_sequence }
    }

    /// The resting bids, best first.
    pub fn bids(&self) -> (r: &Vec<Order>)
        ensures
            order_views(r@) == self@.bids,
    {
        &self.bids
    }

    /// The resting asks, best first.
    pub fn asks(&self) -> (r: &Vec<Order>)
        ensures
            order_views(r@) == self@.asks,
    {
        &self.asks
    }

    /// The resting orders of one side, best first.
    pub fn side(&self, side: Side) -> (r: &Vec<Order>)
        ensures
            order_views(r@) == self@.side(side),
    {
        match side {
            Side::Buy => &self.bids,
            Side::Sell => &self.asks,
        }
    }

    /// The arrival index that the next order will receive.
    pub fn next_sequence(&self) -> (r: u64)
        ensures
            r == self@.next_sequence,
    {
        self.next_sequence
    }

    /// The bid at the top of the book, if there is one.
    pub fn best_bid(&self) -> (r: Option<&Order>)
        ensures
            match r {
                Some(o) => self@.bids.len() > 0 && o@ == self@.bids[0],
                None => self@.bids.len() == 0,
            },
    {
        if self.bids.len() > 0 {
            Some(&self.bids[0])
        } else {
            None
        }
    }

    /// The ask at the top of the book, if there is one.
    pub fn best_ask(&self) -> (r: Option<&Order>)
        ensures
            match r {
                Some(o) => self@.asks.len() > 0 && o@ == self@.asks[0],
                None => self@.asks.len() == 0,
            },
    {
        if self.asks.len() > 0 {
            Some(&self.asks[0])
        } else {
            None
        }
    }

    /// Whether the best bid meets or exceeds the best ask.
    pub fn is_crossed(&self) -> (r: bool)
        ensures
            r == self@.crossed(),
    {
        if self.bids.len() > 0 && self.asks.len() > 0 {
            self.bids[0].limit() >= self.asks[0].limit()
        } else {
            false
        }
    }

    /// Lets `order` arrive. An acceptable order receives the next arrival
    /// index, which is returned, and comes to rest on its side in price-time
    /// priority. Any other order is refused and the book stays as it was.
    pub fn add_order(&mut self, order: Order) -> (r: Result<u64, BookError>)
        requires
            old(self)@.next_sequence < u64::MAX,
        ensures
            final(self)@.wf(),
            match r {
                Ok(sequence) => {
                    &&& order@.acceptable()
                    &&& sequence == old(self)@.next_sequence
                    &&& final(self)@ == old(self)@.inserted(order@)
                },
                Err(e) => {
                    &&& e == BookError::InvalidOrder
                    &&& !order@.acceptable()
                    &&& final(self)@ == old(self)@
                },
            },
    {
        proof {
            use_type_invariant(&*self);
        }
        if !order.is_acceptable() {
            return Err(BookError::InvalidOrder);
        }
        let sequence: u64 = self.next_sequence;
        let mut arrived = order;
        arrived.sequence = sequence;
        proof {
            assert(arrived@ == order@.stamped(sequence as nat));
            self@.lemma_inserted_wf(order@);
        }
        let ghost before = self@;
        let side = arrived.side;
        self.next_sequence = sequence + 1;
        let mut orders = self.take_side(side);
        insert_by_priority(&mut orders, arrived);
        assert(self@.with_side(side, order_views(orders@)) == before.inserted(order@));
        self.put_side(side, orders);
        Ok(sequence)
    }

    /// Takes the order with the arrival index `sequence` out of the book and
    /// returns it. A book that holds no such order stays as it was.
    pub fn remove(&mut self, sequence: u64) -> (r: Option<Order>)
        ensures
            final(self)@.wf(),
            match r {
                Some(o) => exists|side: Side, i: int|
                    {
                        &&& #[trigger] old(self)@.rests_at(side, i, sequence as nat)
                        &&& o@ == old(self)@.side(side)[i]
                        &&& final(self)@ == old(self)@.with_side(
                            side,
                            old(self)@.side(side).remove(i),
                        )
                    },
                None => !old(self)@.holds(sequence as nat) && final(self)@ == old(self)@,
            },
    {
        proof {
            use_type_invariant(&*self);
        }
        let ghost before = self@;
        match position(&self.bids, sequence) {
            Some(i) => {
                assert(before.rests_at(Side::Buy, i as int, sequence as nat));
                Some(self.remove_at(Side::Buy, i))
            },
            None => match position(&self.asks, sequence) {
                Some(i) => {
                    assert(before.rests_at(Side::Sell, i as int, sequence as nat));
                    Some(self.remove_at(Side::Sell, i))
                },
                None => {
                    proof {
                        assert forall|side: Side, i: int| !#[trigger] before.rests_at(
                            side,
                            i,
                            sequence as nat,
                        ) by {
                            if 0 <= i < before.side(side).len() {
                                match side {
                                    Side::Buy => {
                                        assert(self.bids@[i].sequence != sequence);
                                    },
                                    Side::Sell => {
                                        assert(self.asks@[i].sequence != sequence);
                                    },
                                }
                            }
                        }
                    }
                    None
                },
            },
        }
    }

    /// Takes the order at index `i` of `side` out of the book.
    fn remove_at(&mut self, side: Side, i: usize) -> (o: Order)
        requires
            i < old(self)@.side(side).len(),
        ensures
            final(self)@.wf(),
            o@ == old(self)@.side(side)[i as int],
            final(self)@ == old(self)@.with_side(side, old(self)@.side(side).remove(i as int)),
    {
        proof {
            use_type_invariant(&*self);
        }
        let ghost before = self@;
        let mut orders = self.take_side(side);
        let o = orders.remove(i);
        proof {
            assert(order_views(orders@) =~= before.side(side).remove(i as int));
            lemma_remove_side_wf(before.side(side), i as int, side);
            before.lemma_with_side_wf(side, before.side(side).remove(i as int));
        }
        self.put_side(side, orders);
        o
    }

    /// Discards every resting order and starts the arrival indices anew: the
    /// book is as if it had just been made.
    pub fn clear(&mut self)
        ensures
            final(self)@ == (BookView { bids: Seq::empty(), asks: Seq::empty(), next_sequence: 0 }),
            final(self)@.wf(),
    {
        proof {
            use_type_invariant(&*self);
            assert(order_views(Seq::<Order>::empty()) =~= Seq::empty());
            self@.lemma_with_side_wf(Side::Buy, Seq::empty());
        }
        self.bids = Vec::new();
        self.asks = Vec::new();
        self.next_sequence = 0;
    }

    /// Takes `takes[i]` units from order `i` of `side`, for each `i` below the
    /// length of `takes`. Orders that give all they hold leave the book.
    pub(crate) fn consume(&mut self, side: Side, takes: &Vec<u64>)
        requires
            takes.len() <= old(self)@.side(side).len(),
            forall|i: int|
                0 <= i < takes.len() ==> takes[i] <= (#[trigger] old(self)@.side(side)[i]).quantity,
        ensures
            final(self)@.wf(),
            final(self)@ == old(self)@.with_side(
                side,
                consumed(old(self)@.side(side), nats(takes@)),
            ),
    {
        let ghost before = self@;
        proof {
            use_type_invariant(&*self);
            lemma_consumed(before.side(side), nats(takes@), side);
            before.lemma_with_side_wf(side, consumed(before.side(side), nats(takes@)));
        }
        let mut orders = self.take_side(side);
        consume_side(&mut orders, takes);
        self.put_side(side, orders);
    }
}

impl Default for OrderBook {
    fn default() -> (r: OrderBook)
        ensures
            r@ == (BookView { bids: Seq::empty(), asks: Seq::empty(), next_sequence: 0 }),
            r@.wf(),
    {
        OrderBook::new()
    }
}

} // verus!
