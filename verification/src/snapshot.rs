//! Snapshots: the whole state of a book as a plain record that can be
//! written out and read back.

use crate::book::OrderBook;
use crate::book_view::{lemma_adjacent_priority, side_wf, BookView};
use crate::matching::Matcher;
use crate::order::{order_views, Order, OrderView, Side};
use vstd::prelude::*;

verus! {

/// The state of a book as plain data. Nothing is demanded of a snapshot;
/// [`OrderBook::from_snapshot`] accepts the valid ones.
#[derive(Debug, PartialEq, Eq)]
pub struct BookSnapshot {
    /// The resting bids, best first.
    pub bids: Vec<Order>,
    /// The resting asks, best first.
    pub asks: Vec<Order>,
    /// The arrival index of the next order.
    pub next_sequence: u64,
}

/// The mathematical value of a [`BookSnapshot`].
pub struct SnapshotView {
    pub bids: Seq<OrderView>,
    pub asks: Seq<OrderView>,
    pub next_sequence: nat,
}

impl View for BookSnapshot {
    type V = SnapshotView;

    open spec fn view(&self) -> SnapshotView {
        SnapshotView {
            bids: order_views(self.bids@),
            asks: order_views(self.asks@),
            next_sequence: self.next_sequence as nat,
        }
    }
}

impl BookView {
    /// The snapshot of the book.
    pub open spec fn snapshot(self) -> SnapshotView {
        SnapshotView { bids: self.bids, asks: self.asks, next_sequence: self.next_sequence }
    }
}

impl SnapshotView {
    /// The book state that the snapshot describes.
    pub open spec fn book(self) -> BookView {
        BookView { bids: self.bids, asks: self.asks, next_sequence: self.next_sequence }
    }

    /// The book that the snapshot restores to: the state it describes, if
    /// that is a well-formed book.
    pub open spec fn restored(self) -> Option<BookView> {
        if self.book().wf() {
            Some(self.book())
        } else {
            None
        }
    }
}

/// Round trip. The snapshot of a well-formed book restores to that book, so
/// every later arrival and every later pass does to the restored book what
/// it does to the book the snapshot was taken of.
pub proof fn lemma_snapshot_round_trip(b: BookView, m: Matcher, o: OrderView)
    requires
        b.wf(),
    ensures
        b.snapshot().restored() == Some(b),
        b.snapshot().restored()->0.inserted(o) == b.inserted(o),
        m.settled(b.snapshot().restored()->0) == m.settled(b),
        m.fills(b.snapshot().restored()->0, 0) == m.fills(b, 0),
{
    assert(b.snapshot().book() == b);
}

/// A copy of the orders of `v`.
fn copy_orders(v: &Vec<Order>) -> (r: Vec<Order>)
    ensures
        r@ == v@,
{
    let mut r: Vec<Order> = Vec::new();
    let mut i: usize = 0;
    while i < v.len()
        invariant
            i <= v.len(),
            r.len() == i,
            forall|j: int| 0 <= j < i ==> r[j] == v[j],
        decreases v.len() - i,
    {
        r.push(v[i].clone());
        i += 1;
    }
    assert(r@ =~= v@);
    r
}

/// Whether the orders of `v` may rest together on `side` of a book whose
/// next arrival index is `next`.
fn side_is_valid(v: &Vec<Order>, side: Side, next: u64) -> (ok: bool)
    ensures
        ok == (side_wf(order_views(v@), side) && forall|i: int|
            0 <= i < v.len() ==> (#[trigger] order_views(v@)[i]).sequence < next),
{
    let ghost s = order_views(v@);
    let n: usize = v.len();
    let mut i: usize = 0;
    while i < n
        invariant
            i <= n,
            n == v.len(),
            s == order_views(v@),
            forall|k: int|
                0 <= k < i ==> (#[trigger] s[k]).side == side && s[k].acceptable() && s[k].sequence
                    < next,
            forall|k: int| 0 <= k < i && k + 1 < n ==> (#[trigger] s[k]).precedes(s[k + 1]),
            forall|k: int, l: int|
                0 <= k < i && k < l < n ==> (#[trigger] s[k]).sequence != (
                #[trigger] s[l]).sequence,
        decreases n - i,
    {
        let o = &v[i];
        assert(o@ == s[i as int]);
        if o.side != side || !o.is_acceptable() || o.sequence >= next {
            return false;
        }
        if i + 1 < n {
            assert(v[i + 1]@ == s[i + 1]);
            if !o.precedes(&v[i + 1]) {
                assert(!s[i as int].precedes(s[i + 1]));
                return false;
            }
        }
        let mut j: usize = i + 1;
        while j < n
            invariant
                i < j <= n,
                n == v.len(),
                s == order_views(v@),
                o@ == s[i as int],
                forall|l: int| i < l < j ==> s[i as int].sequence != (#[trigger] s[l]).sequence,
            decreases n - j,
        {
            if v[j].sequence == o.sequence {
                assert(s[i as int].sequence == s[j as int].sequence);
                return false;
            }
            j += 1;
        }
        i += 1;
    }
    proof {
        assert forall|a: int, b: int| 0 <= a < b < s.len() implies (#[trigger] s[a]).precedes(
            #[trigger] s[b],
        ) by {
            lemma_adjacent_priority(s, side, a, b);
        }
    }
    true
}

/// Whether no arrival index occurs both in `bids` and in `asks`.
fn sides_are_disjoint(bids: &Vec<Order>, asks: &Vec<Order>) -> (ok: bool)
    ensures
        ok == forall|i: int, j: int|
            0 <= i < bids.len() && 0 <= j < asks.len() ==> (#[trigger] order_views(
                bids@,
            )[i]).sequence != (#[trigger] order_views(asks@)[j]).sequence,
{
    let ghost b = order_views(bids@);
    let ghost a = order_views(asks@);
    let mut i: usize = 0;
    while i < bids.len()
        invariant
            i <= bids.len(),
            b == order_views(bids@),
            a == order_views(asks@),
            forall|k: int, l: int|
                0 <= k < i && 0 <= l < asks.len() ==> (#[trigger] b[k]).sequence != (
                #[trigger] a[l]).sequence,
        decreases bids.len() - i,
    {
        let mut j: usize = 0;
        while j < asks.len()
            invariant
                i < bids.len(),
                j <= asks.len(),
                b == order_views(bids@),
                a == order_views(asks@),
                forall|l: int| 0 <= l < j ==> b[i as int].sequence != (#[trigger] a[l]).sequence,
            decreases asks.len() - j,
        {
            if bids[i].sequence == asks[j].sequence {
                assert(b[i as int].sequence == a[j as int].sequence);
                return false;
            }
            j += 1;
        }
        i += 1;
    }
    true
}

impl OrderBook {
    /// The snapshot of the book.
    pub fn to_snapshot(&self) -> (s: BookSnapshot)
        ensures
            s@ == self@.snapshot(),
    {
        BookSnapshot {
            bids: copy_orders(self.bids()),
            asks: copy_orders(self.asks()),
            next_sequence: self.next_sequence(),
        }
    }

    /// The book that a snapshot describes. A snapshot that does not describe
    /// a well-formed book restores to nothing.
    pub fn from_snapshot(s: BookSnapshot) -> (r: Option<OrderBook>)
        ensures
            match r {
                Some(book) => s@.restored() == Some(book@),
                None => s@.restored().is_none(),
            },
    {
        let ok = side_is_valid(&s.bids, Side::Buy, s.next_sequence) && side_is_valid(
            &s.asks,
            Side::Sell,
            s.next_sequence,
        ) && sides_are_disjoint(&s.bids, &s.asks);
        if ok {
            Some(OrderBook::from_parts(s.bids, s.asks, s.next_sequence))
        } else {
            None
        }
    }
}

} // verus!
