//! The state of an order book as a mathematical value.
//!
//! A [`BookView`] holds the two sides as sequences of order views, best order
//! first, and the arrival index that the next order will receive. The
//! functions here say what insertion and consumption do to such a value; the
//! executable book is specified against them.

use crate::allocation::{lemma_total_add, total};
use crate::counting::{count, lemma_count_prefix};
use crate::order::{OrderView, Side};
use vstd::prelude::*;

verus! {

/// The state of a book: resting bids and asks, best first, and the arrival
/// index of the next order.
pub struct BookView {
    pub bids: Seq<OrderView>,
    pub asks: Seq<OrderView>,
    pub next_sequence: nat,
}

/// The orders of `s` may rest together on `side`: each belongs to the side
/// and is acceptable, they stand in price-time priority, and no two share an
/// arrival index.
pub open spec fn side_wf(s: Seq<OrderView>, side: Side) -> bool {
    &&& forall|i: int| 0 <= i < s.len() ==> (#[trigger] s[i]).side == side && s[i].acceptable()
    &&& forall|i: int, j: int|
        0 <= i < j < s.len() ==> (#[trigger] s[i]).precedes(#[trigger] s[j])
    &&& forall|i: int, j: int|
        0 <= i < j < s.len() ==> (#[trigger] s[i]).sequence != (#[trigger] s[j]).sequence
}

/// The resting orders of `s` that are served before `o`, as a predicate on
/// indices.
pub open spec fn preceding(s: Seq<OrderView>, o: OrderView) -> spec_fn(int) -> bool {
    |i: int| s[i].precedes(o)
}

/// Where `o` comes to rest in `s`: behind every order that is served before it.
pub open spec fn slot(s: Seq<OrderView>, o: OrderView) -> nat {
    count(s.len() as int, preceding(s, o))
}

/// The quantities of the orders of `s`, in order.
pub open spec fn quantities(s: Seq<OrderView>) -> Seq<nat> {
    Seq::new(s.len(), |i: int| s[i].quantity)
}

/// The quantity resting in `s`.
pub open spec fn resting_quantity(s: Seq<OrderView>) -> nat {
    total(quantities(s))
}

/// What is left of the first `k` orders of `s` once `a[i]` units have been
/// taken from order `i`: an order that loses all it holds is gone, the others
/// stay in place with less.
pub open spec fn survivors(s: Seq<OrderView>, a: Seq<nat>, k: int) -> Seq<OrderView>
    decreases k,
{
    if k <= 0 {
        Seq::empty()
    } else {
        let rest = survivors(s, a, k - 1);
        if a[k - 1] >= s[k - 1].quantity {
            rest
        } else {
            rest.push(s[k - 1].reduced(a[k - 1]))
        }
    }
}

/// The side `s` after `a[i]` units have been taken from its order `i`, for
/// each `i` below the length of `a`. Orders behind those stay as they are.
pub open spec fn consumed(s: Seq<OrderView>, a: Seq<nat>) -> Seq<OrderView> {
    survivors(s, a, a.len() as int) + s.skip(a.len() as int)
}

/// `e` is the order `o` holding no more than `o` holds.
pub open spec fn residue(e: OrderView, o: OrderView) -> bool {
    e.quantity <= o.quantity && e == (OrderView { quantity: e.quantity, ..o })
}

/// `e` is what is left of one of the first `k` orders of `old`.
pub open spec fn stems_from(e: OrderView, old: Seq<OrderView>, k: int) -> bool {
    exists|i: int| 0 <= i < k && residue(e, #[trigger] old[i])
}

/// Every order of `new` is what is left of an order of `old`.
pub open spec fn derived(new: Seq<OrderView>, old: Seq<OrderView>) -> bool {
    forall|x: int| 0 <= x < new.len() ==> stems_from(#[trigger] new[x], old, old.len() as int)
}

impl BookView {
    /// The resting orders of one side.
    pub open spec fn side(self, side: Side) -> Seq<OrderView> {
        match side {
            Side::Buy => self.bids,
            Side::Sell => self.asks,
        }
    }

    /// The book with one side replaced.
    pub open spec fn with_side(self, side: Side, s: Seq<OrderView>) -> BookView {
        match side {
            Side::Buy => BookView { bids: s, ..self },
            Side::Sell => BookView { asks: s, ..self },
        }
    }

    /// The invariant of a book: both sides are well formed, every arrival
    /// index in the book is below the next one to be given out, and no
    /// arrival index occurs on both sides.
    pub open spec fn wf(self) -> bool {
        &&& side_wf(self.bids, Side::Buy)
        &&& side_wf(self.asks, Side::Sell)
        &&& forall|i: int|
            0 <= i < self.bids.len() ==> (#[trigger] self.bids[i]).sequence < self.next_sequence
        &&& forall|i: int|
            0 <= i < self.asks.len() ==> (#[trigger] self.asks[i]).sequence < self.next_sequence
        &&& forall|i: int, j: int|
            0 <= i < self.bids.len() && 0 <= j < self.asks.len() ==> (
            #[trigger] self.bids[i]).sequence != (#[trigger] self.asks[j]).sequence
    }

    /// The best bid meets or exceeds the best ask.
    pub open spec fn crossed(self) -> bool {
        &&& self.bids.len() > 0
        &&& self.asks.len() > 0
        &&& self.bids[0].limit() >= self.asks[0].limit()
    }

    /// The number of resting orders.
    pub open spec fn resting(self) -> nat {
        self.bids.len() + self.asks.len()
    }

    /// The book after `o` has arrived: `o` receives the next arrival index
    /// and rests on its side behind every order that is served before it.
    pub open spec fn inserted(self, o: OrderView) -> BookView {
        let arrived = o.stamped(self.next_sequence);
        let s = self.side(o.side);
        BookView {
            next_sequence: self.next_sequence + 1,
            ..self.with_side(o.side, s.insert(slot(s, arrived) as int, arrived))
        }
    }

    /// Whether an order with the arrival index `sequence` rests at `i` on `side`.
    pub open spec fn rests_at(self, side: Side, i: int, sequence: nat) -> bool {
        0 <= i < self.side(side).len() && self.side(side)[i].sequence == sequence
    }

    /// Whether an order with the arrival index `sequence` rests in the book.
    pub open spec fn holds(self, sequence: nat) -> bool {
        exists|side: Side, i: int| self.rests_at(side, i, sequence)
    }
}


/// Priority is transitive among the orders of one side.
pub proof fn lemma_precedes_transitive(a: OrderView, b: OrderView, c: OrderView)
    requires
        a.side == b.side,
        a.precedes(b),
        b.precedes(c),
    ensures
        a.precedes(c),
{
}

/// Of two orders of one side with different arrival indices, one is served
/// before the other.
pub proof fn lemma_precedes_total(a: OrderView, b: OrderView)
    requires
        a.side == b.side,
        a.sequence != b.sequence,
    ensures
        a.precedes(b) || b.precedes(a),
{
}

/// Orders of one side of which each is served before its successor stand in
/// price-time priority.
pub proof fn lemma_adjacent_priority(s: Seq<OrderView>, side: Side, i: int, j: int)
    requires
        forall|k: int| 0 <= k < s.len() ==> (#[trigger] s[k]).side == side,
        forall|k: int| 0 <= k < s.len() - 1 ==> (#[trigger] s[k]).precedes(s[k + 1]),
        0 <= i < j < s.len(),
    ensures
        s[i].precedes(s[j]),
    decreases j - i,
{
    if j > i + 1 {
        lemma_adjacent_priority(s, side, i, j - 1);
        assert(s[j - 1].precedes(s[j - 1 + 1]));
        lemma_precedes_transitive(s[i], s[j - 1], s[j]);
    }
}

/// On a well-formed side the orders served before `o` are exactly those in
/// front of its slot.
pub proof fn lemma_slot(s: Seq<OrderView>, o: OrderView, side: Side)
    requires
        side_wf(s, side),
    ensures
        slot(s, o) <= s.len(),
        forall|i: int| 0 <= i < s.len() ==> ((#[trigger] s[i]).precedes(o) <==> i < slot(s, o)),
{
    let p = preceding(s, o);
    assert forall|i: int, j: int| 0 <= i < j < s.len() && #[trigger] p(j) implies #[trigger] p(
        i,
    ) by {
        lemma_precedes_transitive(s[i], s[j], o);
    }
    lemma_count_prefix(s.len() as int, p);
    assert forall|i: int| 0 <= i < s.len() implies ((#[trigger] s[i]).precedes(o) <==> i < slot(
        s,
        o,
    )) by {
        assert(p(i) == s[i].precedes(o));
    }
}

/// A newcomer that is put into its slot leaves the side well formed.
pub proof fn lemma_insert_side_wf(s: Seq<OrderView>, x: OrderView, side: Side)
    requires
        side_wf(s, side),
        x.side == side,
        x.acceptable(),
        forall|i: int| 0 <= i < s.len() ==> (#[trigger] s[i]).sequence < x.sequence,
    ensures
        slot(s, x) <= s.len(),
        side_wf(s.insert(slot(s, x) as int, x), side),
{
    lemma_slot(s, x, side);
    let k = slot(s, x) as int;
    let r = s.insert(k, x);
    assert forall|i: int, j: int| 0 <= i < j < r.len() implies (#[trigger] r[i]).precedes(
        #[trigger] r[j],
    ) && r[i].sequence != r[j].sequence by {
        if j == k {
            assert(r[i] == s[i]);
        } else if i == k {
            assert(r[j] == s[j - 1]);
            lemma_precedes_total(x, s[j - 1]);
        } else {
            let i0 = if i < k {
                i
            } else {
                i - 1
            };
            let j0 = if j < k {
                j
            } else {
                j - 1
            };
            assert(r[i] == s[i0] && r[j] == s[j0]);
        }
    }
    assert forall|i: int| 0 <= i < r.len() implies (#[trigger] r[i]).side == side
        && r[i].acceptable() by {
        if i < k {
            assert(r[i] == s[i]);
        } else if i > k {
            assert(r[i] == s[i - 1]);
        }
    }
}

/// Taking an order out leaves the side well formed.
pub proof fn lemma_remove_side_wf(s: Seq<OrderView>, k: int, side: Side)
    requires
        side_wf(s, side),
        0 <= k < s.len(),
    ensures
        side_wf(s.remove(k), side),
        derived(s.remove(k), s),
{
    let r = s.remove(k);
    assert forall|i: int| 0 <= i < r.len() implies #[trigger] r[i] == s[if i < k {
        i
    } else {
        i + 1
    }] by {}
    assert forall|x: int| 0 <= x < r.len() implies stems_from(
        #[trigger] r[x],
        s,
        s.len() as int,
    ) by {
        let i = if x < k {
            x
        } else {
            x + 1
        };
        assert(residue(r[x], s[i]));
    }
    assert forall|i: int, j: int| 0 <= i < j < r.len() implies (#[trigger] r[i]).precedes(
        #[trigger] r[j],
    ) && r[i].sequence != r[j].sequence by {
        let i0 = if i < k {
            i
        } else {
            i + 1
        };
        let j0 = if j < k {
            j
        } else {
            j + 1
        };
        assert(r[i] == s[i0] && r[j] == s[j0]);
    }
}

/// What survives of the first `k` orders of a well-formed side is well
/// formed, and each survivor is what is left of one of those orders.
pub proof fn lemma_survivors(s: Seq<OrderView>, a: Seq<nat>, k: int, side: Side)
    requires
        side_wf(s, side),
        0 <= k <= s.len(),
        k <= a.len(),
    ensures
        survivors(s, a, k).len() <= k,
        side_wf(survivors(s, a, k), side),
        forall|x: int|
            0 <= x < survivors(s, a, k).len() ==> stems_from(
                #[trigger] survivors(s, a, k)[x],
                s,
                k,
            ),
        (exists|i: int| 0 <= i < k && a[i] >= (#[trigger] s[i]).quantity) ==> survivors(
            s,
            a,
            k,
        ).len() < k,
    decreases k,
{
    if k > 0 {
        lemma_survivors(s, a, k - 1, side);
        let rest = survivors(s, a, k - 1);
        let r = survivors(s, a, k);
        assert forall|x: int| 0 <= x < rest.len() implies stems_from(#[trigger] rest[x], s, k) by {
            let i = choose|i: int| 0 <= i < k - 1 && residue(rest[x], #[trigger] s[i]);
            assert(0 <= i < k && residue(rest[x], s[i]));
        }
        if exists|i: int| 0 <= i < k && a[i] >= (#[trigger] s[i]).quantity {
            let i = choose|i: int| 0 <= i < k && a[i] >= (#[trigger] s[i]).quantity;
            if i < k - 1 {
                assert(0 <= i < k - 1 && a[i] >= s[i].quantity);
            }
        }
        if a[k - 1] < s[k - 1].quantity {
            let e = s[k - 1].reduced(a[k - 1]);
            assert(residue(e, s[k - 1]));
            assert(r == rest.push(e));
            assert forall|x: int| 0 <= x < r.len() implies stems_from(#[trigger] r[x], s, k) by {
                if x < rest.len() {
                    assert(r[x] == rest[x]);
                }
            }
            assert forall|i: int, j: int| 0 <= i < j < r.len() implies (#[trigger] r[i]).precedes(
                #[trigger] r[j],
            ) && r[i].sequence != r[j].sequence by {
                if j < rest.len() {
                    assert(r[i] == rest[i] && r[j] == rest[j]);
                } else {
                    assert(r[i] == rest[i] && r[j] == e);
                    let i0 = choose|i0: int| 0 <= i0 < k - 1 && residue(rest[i], #[trigger] s[i0]);
                    assert(s[i0].precedes(s[k - 1]));
                }
            }
            assert forall|i: int| 0 <= i < r.len() implies (#[trigger] r[i]).side == side
                && r[i].acceptable() by {
                if i < rest.len() {
                    assert(r[i] == rest[i]);
                }
            }
        }
    }
}

/// What the first `k` orders of a side held is what survives of them plus
/// what was taken, provided no order gave more than it held.
pub proof fn lemma_survivors_quantity(s: Seq<OrderView>, a: Seq<nat>, k: int)
    requires
        0 <= k <= s.len(),
        k <= a.len(),
        forall|i: int| 0 <= i < k ==> a[i] <= (#[trigger] s[i]).quantity,
    ensures
        resting_quantity(survivors(s, a, k)) + total(a.take(k)) == resting_quantity(s.take(k)),
    decreases k,
{
    if k == 0 {
        assert(quantities(survivors(s, a, k)) =~= Seq::<nat>::empty());
        assert(a.take(0) =~= Seq::<nat>::empty());
        assert(quantities(s.take(0)) =~= Seq::<nat>::empty());
    } else {
        lemma_survivors_quantity(s, a, k - 1);
        let rest = survivors(s, a, k - 1);
        assert(a.take(k).drop_last() =~= a.take(k - 1));
        assert(quantities(s.take(k)).drop_last() =~= quantities(s.take(k - 1)));
        assert(s[k - 1].quantity >= a[k - 1]);
        if a[k - 1] < s[k - 1].quantity {
            let e = s[k - 1].reduced(a[k - 1]);
            assert(quantities(rest.push(e)).drop_last() =~= quantities(rest));
        }
    }
}

/// Orders that give all they hold leave nothing behind: the side is left
/// with the orders behind them.
pub proof fn lemma_consumed_all(s: Seq<OrderView>, a: Seq<nat>)
    requires
        a.len() <= s.len(),
        forall|i: int| 0 <= i < a.len() ==> #[trigger] a[i] >= s[i].quantity,
    ensures
        consumed(s, a) == s.skip(a.len() as int),
{
    assert forall|k: int| 0 <= k <= a.len() implies #[trigger] survivors(s, a, k)
        =~= Seq::<OrderView>::empty() by {
        lemma_survivors_none(s, a, k);
    }
    assert(consumed(s, a) =~= s.skip(a.len() as int));
}

proof fn lemma_survivors_none(s: Seq<OrderView>, a: Seq<nat>, k: int)
    requires
        0 <= k <= a.len(),
        forall|i: int| 0 <= i < a.len() ==> #[trigger] a[i] >= s[i].quantity,
    ensures
        survivors(s, a, k).len() == 0,
    decreases k,
{
    if k > 0 {
        lemma_survivors_none(s, a, k - 1);
    }
}

/// Taking `q` units from the first order of a side reduces that order, or
/// drops it if it holds no more than `q`, and leaves the orders behind it.
pub proof fn lemma_consumed_head(s: Seq<OrderView>, q: nat)
    requires
        s.len() > 0,
    ensures
        consumed(s, seq![q]) == if q >= s[0].quantity {
            s.skip(1)
        } else {
            seq![s[0].reduced(q)] + s.skip(1)
        },
{
    let a = seq![q];
    assert(survivors(s, a, 0) =~= Seq::<OrderView>::empty());
    if q >= s[0].quantity {
        assert(survivors(s, a, 1) =~= Seq::<OrderView>::empty());
        assert(consumed(s, a) =~= s.skip(1));
    } else {
        assert(survivors(s, a, 1) =~= seq![s[0].reduced(q)]);
        assert(consumed(s, a) =~= seq![s[0].reduced(q)] + s.skip(1));
    }
}

/// The quantity resting in a concatenation is the sum of the parts.
pub proof fn lemma_resting_quantity_add(a: Seq<OrderView>, b: Seq<OrderView>)
    ensures
        resting_quantity(a + b) == resting_quantity(a) + resting_quantity(b),
{
    assert(quantities(a + b) =~= quantities(a) + quantities(b));
    lemma_total_add(quantities(a), quantities(b));
}

/// Consumption keeps a side well formed, takes exactly what was asked from
/// it, and shortens it when an order gives all it holds.
pub proof fn lemma_consumed(s: Seq<OrderView>, a: Seq<nat>, side: Side)
    requires
        side_wf(s, side),
        a.len() <= s.len(),
        forall|i: int| 0 <= i < a.len() ==> a[i] <= (#[trigger] s[i]).quantity,
    ensures
        side_wf(consumed(s, a), side),
        derived(consumed(s, a), s),
        resting_quantity(consumed(s, a)) + total(a) == resting_quantity(s),
        consumed(s, a).len() <= s.len(),
        (exists|i: int| 0 <= i < a.len() && a[i] >= (#[trigger] s[i]).quantity) ==> consumed(
            s,
            a,
        ).len() < s.len(),
{
    let k = a.len() as int;
    let head = survivors(s, a, k);
    let tail = s.skip(k);
    let r = consumed(s, a);
    lemma_survivors(s, a, k, side);
    lemma_survivors_quantity(s, a, k);
    lemma_resting_quantity_add(head, tail);
    lemma_resting_quantity_add(s.take(k), tail);
    assert(s.take(k) + tail =~= s);
    assert(a.take(k) =~= a);
    assert forall|x: int| 0 <= x < r.len() implies stems_from(
        #[trigger] r[x],
        s,
        s.len() as int,
    ) by {
        if x < head.len() {
            let i = choose|i: int| 0 <= i < k && residue(head[x], #[trigger] s[i]);
            assert(0 <= i < s.len() && residue(r[x], s[i]));
        } else {
            let i = x - head.len() + k;
            assert(r[x] == s[i]);
            assert(residue(r[x], s[i]));
        }
    }
    assert forall|i: int, j: int| 0 <= i < j < r.len() implies (#[trigger] r[i]).precedes(
        #[trigger] r[j],
    ) && r[i].sequence != r[j].sequence by {
        if j < head.len() {
            assert(r[i] == head[i] && r[j] == head[j]);
        } else if i >= head.len() {
            assert(r[i] == s[i - head.len() + k] && r[j] == s[j - head.len() + k]);
        } else {
            let i0 = choose|i0: int| 0 <= i0 < k && residue(head[i], #[trigger] s[i0]);
            assert(r[j] == s[j - head.len() + k]);
            assert(s[i0].precedes(s[j - head.len() + k]));
        }
    }
    assert forall|i: int| 0 <= i < r.len() implies (#[trigger] r[i]).side == side
        && r[i].acceptable() by {
        if i < head.len() {
            assert(r[i] == head[i]);
        } else {
            assert(r[i] == s[i - head.len() + k]);
        }
    }
}

impl BookView {
    /// A well-formed book stays well formed when one side is replaced by a
    /// well-formed side whose orders are what is left of the side's orders.
    pub proof fn lemma_with_side_wf(self, side: Side, s: Seq<OrderView>)
        requires
            self.wf(),
            side_wf(s, side),
            derived(s, self.side(side)),
        ensures
            self.with_side(side, s).wf(),
    {
        let old = self.side(side);
        let b = self.with_side(side, s);
        assert forall|x: int| 0 <= x < s.len() implies exists|i: int|
            0 <= i < old.len() && (#[trigger] old[i]).sequence == (#[trigger] s[x]).sequence by {
            let i = choose|i: int| 0 <= i < old.len() && residue(s[x], #[trigger] old[i]);
            assert(old[i].sequence == s[x].sequence);
        }
        assert forall|x: int| 0 <= x < s.len() implies (#[trigger] s[x]).sequence
            < self.next_sequence by {
            let i = choose|i: int| 0 <= i < old.len() && residue(s[x], #[trigger] old[i]);
        }
        assert forall|i: int, j: int| 0 <= i < b.bids.len() && 0 <= j < b.asks.len() implies (
        #[trigger] b.bids[i]).sequence != (#[trigger] b.asks[j]).sequence by {
            match side {
                Side::Buy => {
                    let i0 = choose|i0: int|
                        0 <= i0 < old.len() && residue(s[i], #[trigger] old[i0]);
                    assert(self.bids[i0].sequence != self.asks[j].sequence);
                },
                Side::Sell => {
                    let j0 = choose|j0: int|
                        0 <= j0 < old.len() && residue(s[j], #[trigger] old[j0]);
                    assert(self.bids[i].sequence != self.asks[j0].sequence);
                },
            }
        }
    }

    /// An acceptable order that arrives at a well-formed book leaves it well formed.
    pub proof fn lemma_inserted_wf(self, o: OrderView)
        requires
            self.wf(),
            o.acceptable(),
        ensures
            self.inserted(o).wf(),
            slot(self.side(o.side), o.stamped(self.next_sequence)) <= self.side(o.side).len(),
    {
        let x = o.stamped(self.next_sequence);
        let s = self.side(o.side);
        lemma_insert_side_wf(s, x, o.side);
        let k = slot(s, x) as int;
        let r = s.insert(k, x);
        let b = self.inserted(o);
        assert forall|i: int| 0 <= i < r.len() implies (#[trigger] r[i]).sequence
            <= self.next_sequence && (i != k ==> r[i].sequence < self.next_sequence) by {
            if i < k {
                assert(r[i] == s[i]);
            } else if i > k {
                assert(r[i] == s[i - 1]);
            }
        }
    }
}

} // verus!
