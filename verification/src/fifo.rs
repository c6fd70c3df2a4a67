//! Price-time matching in closed form.
//!
//! When an order arrives at a book that is not crossed, a pass under
//! price-time priority walks the opposite side from the front: each resting
//! order gives all it holds before the order behind it gives anything, until
//! the arrival has traded what it can.

use crate::allocation::{
    fifo_allocation, lemma_total_add, lemma_total_take_bounds, lemma_total_take_step, total,
};
use crate::arrival::{lemma_arrival_sole_taker, sole_taker};
use crate::book_view::{consumed, lemma_consumed_all, quantities, side_wf, survivors, BookView};
use crate::matching::{
    fill_of, filled_quantity, fills_of, lemma_filled_quantity_add, lemma_level, level_len, Matcher,
};
use crate::order::{FillView, OrderView, Side};
use vstd::prelude::*;

verus! {

/// What each order of a side gives when `f` units are taken from the front
/// of the side: the first order in full before the second gives anything,
/// and so on.
pub open spec fn walk(theirs: Seq<OrderView>, f: nat) -> Seq<nat> {
    fifo_allocation(quantities(theirs), f)
}

/// `n` times nothing.
pub open spec fn zeros(n: int) -> Seq<nat> {
    Seq::new(n as nat, |i: int| 0nat)
}

/// An amount that the first `l` makers can fill leaves nothing for the
/// makers behind them.
proof fn lemma_fifo_allocation_within(qs: Seq<nat>, t: nat, l: int)
    requires
        0 <= l <= qs.len(),
        t <= total(qs.take(l)),
    ensures
        fifo_allocation(qs, t) == fifo_allocation(qs.take(l), t) + zeros(qs.len() - l),
{
    let whole = fifo_allocation(qs, t);
    let parts = fifo_allocation(qs.take(l), t) + zeros(qs.len() - l);
    assert forall|i: int| 0 <= i < qs.len() implies whole[i] == parts[i] by {
        if i < l {
            assert(qs.take(l).take(i) =~= qs.take(i));
        } else {
            lemma_total_take_bounds(qs.take(i), l);
            assert(qs.take(i).take(l) =~= qs.take(l));
        }
    }
    assert(whole =~= parts);
}

/// An amount that exceeds what the first `l` makers hold takes all they
/// hold, and the rest is taken from the makers behind them.
proof fn lemma_fifo_allocation_beyond(qs: Seq<nat>, l: int, more: nat)
    requires
        0 <= l <= qs.len(),
    ensures
        fifo_allocation(qs, total(qs.take(l)) + more) == qs.take(l) + fifo_allocation(
            qs.skip(l),
            more,
        ),
{
    let t = total(qs.take(l)) + more;
    let whole = fifo_allocation(qs, t);
    let parts = qs.take(l) + fifo_allocation(qs.skip(l), more);
    assert forall|i: int| 0 <= i < qs.len() implies whole[i] == parts[i] by {
        if i < l {
            lemma_total_take_step(qs, i);
            lemma_total_take_bounds(qs.take(l), i + 1);
            assert(qs.take(l).take(i + 1) =~= qs.take(i + 1));
        } else {
            assert(qs.take(i) =~= qs.take(l) + qs.skip(l).take(i - l));
            lemma_total_add(qs.take(l), qs.skip(l).take(i - l));
        }
    }
    assert(whole =~= parts);
}

/// What survives of the first `k` orders depends on what those orders give
/// only.
proof fn lemma_survivors_agree(s: Seq<OrderView>, a: Seq<nat>, b: Seq<nat>, k: int)
    requires
        forall|i: int| 0 <= i < k ==> a[i] == b[i],
    ensures
        survivors(s, a, k) == survivors(s, b, k),
    decreases k,
{
    if k > 0 {
        lemma_survivors_agree(s, a, b, k - 1);
    }
}

/// An order that gives nothing stays as it is.
proof fn lemma_survivors_zeros(s: Seq<OrderView>, a: Seq<nat>, z: int, side: Side)
    requires
        side_wf(s, side),
        0 <= z,
        a.len() + z <= s.len(),
    ensures
        survivors(s, a + zeros(z), a.len() + z) == survivors(s, a, a.len() as int) + s.subrange(
            a.len() as int,
            a.len() + z,
        ),
    decreases z,
{
    let l = a.len() as int;
    if z == 0 {
        lemma_survivors_agree(s, a + zeros(0), a, l);
        assert(s.subrange(l, l) =~= Seq::<OrderView>::empty());
        assert(survivors(s, a, l) + s.subrange(l, l) =~= survivors(s, a, l));
    } else {
        lemma_survivors_zeros(s, a, z - 1, side);
        lemma_survivors_agree(s, a + zeros(z), a + zeros(z - 1), l + z - 1);
        let o = s[l + z - 1];
        assert((a + zeros(z))[l + z - 1] == 0);
        assert(o.acceptable());
        assert(o.reduced(0) == o);
        assert(survivors(s, a, l) + s.subrange(l, l + z) =~= (survivors(s, a, l) + s.subrange(
            l,
            l + z - 1,
        )).push(o));
    }
}

/// Orders that give nothing can be left out of a consumption.
proof fn lemma_consumed_zeros(s: Seq<OrderView>, a: Seq<nat>, z: int, side: Side)
    requires
        side_wf(s, side),
        0 <= z,
        a.len() + z <= s.len(),
    ensures
        consumed(s, a + zeros(z)) == consumed(s, a),
{
    let l = a.len() as int;
    lemma_survivors_zeros(s, a, z, side);
    assert(consumed(s, a + zeros(z)) =~= consumed(s, a)) by {
        assert(s.subrange(l, l + z) + s.skip(l + z) =~= s.skip(l));
        assert((a + zeros(z)).len() == l + z);
    }
}

/// Behind orders that give all they hold, consumption goes on as if they
/// had never been there.
proof fn lemma_consumed_after_all(s: Seq<OrderView>, gone: Seq<nat>, a: Seq<nat>)
    requires
        gone.len() + a.len() <= s.len(),
        forall|i: int| 0 <= i < gone.len() ==> #[trigger] gone[i] >= s[i].quantity,
    ensures
        consumed(s, gone + a) == consumed(s.skip(gone.len() as int), a),
{
    let l = gone.len() as int;
    lemma_survivors_after_all(s, gone, a, a.len() as int);
    assert(s.skip(l + a.len()) =~= s.skip(l).skip(a.len() as int));
}

proof fn lemma_survivors_after_all(s: Seq<OrderView>, gone: Seq<nat>, a: Seq<nat>, m: int)
    requires
        0 <= m <= a.len(),
        gone.len() + a.len() <= s.len(),
        forall|i: int| 0 <= i < gone.len() ==> #[trigger] gone[i] >= s[i].quantity,
    ensures
        survivors(s, gone + a, gone.len() + m) == survivors(s.skip(gone.len() as int), a, m),
    decreases m,
{
    let l = gone.len() as int;
    if m == 0 {
        lemma_survivors_agree(s, gone + a, gone, l);
        lemma_consumed_all(s, gone);
        assert(survivors(s, gone, l).len() == 0) by {
            assert(consumed(s, gone).len() == s.skip(l).len());
        }
        assert(survivors(s, gone + a, l) =~= Seq::<OrderView>::empty());
    } else {
        lemma_survivors_after_all(s, gone, a, m - 1);
        assert((gone + a)[l + m - 1] == a[m - 1]);
        assert(s[l + m - 1] == s.skip(l)[m - 1]);
    }
}

/// The fills with the first `k` makers depend on what those makers give only.
proof fn lemma_fills_agree(
    taker: OrderView,
    makers: Seq<OrderView>,
    a: Seq<nat>,
    b: Seq<nat>,
    first: nat,
    k: int,
)
    requires
        forall|i: int| 0 <= i < k ==> a[i] == b[i],
    ensures
        fills_of(taker, makers, a, first, k) == fills_of(taker, makers, b, first, k),
    decreases k,
{
    if k > 0 {
        lemma_fills_agree(taker, makers, a, b, first, k - 1);
    }
}

/// Makers that give nothing have no fill.
proof fn lemma_fills_zeros(
    taker: OrderView,
    makers: Seq<OrderView>,
    a: Seq<nat>,
    z: int,
    first: nat,
)
    requires
        0 <= z,
    ensures
        fills_of(taker, makers, a + zeros(z), first, a.len() + z) == fills_of(
            taker,
            makers,
            a,
            first,
            a.len() as int,
        ),
    decreases z,
{
    let l = a.len() as int;
    if z == 0 {
        lemma_fills_agree(taker, makers, a + zeros(0), a, first, l);
    } else {
        lemma_fills_zeros(taker, makers, a, z - 1, first);
        lemma_fills_agree(taker, makers, a + zeros(z), a + zeros(z - 1), first, l + z - 1);
        assert((a + zeros(z))[l + z - 1] == 0);
    }
}

/// The fills with makers behind the first `early.len()` follow the fills
/// with those, numbered on from them. It does not matter how much the taker
/// holds.
proof fn lemma_fills_after(
    taker: OrderView,
    later_taker: OrderView,
    makers: Seq<OrderView>,
    early: Seq<nat>,
    a: Seq<nat>,
    first: nat,
    m: int,
)
    requires
        taker.client_order_id == later_taker.client_order_id,
        0 <= m <= a.len(),
        early.len() + a.len() <= makers.len(),
    ensures
        fills_of(taker, makers, early + a, first, early.len() + m) == fills_of(
            taker,
            makers,
            early,
            first,
            early.len() as int,
        ) + fills_of(
            later_taker,
            makers.skip(early.len() as int),
            a,
            first + fills_of(taker, makers, early, first, early.len() as int).len(),
            m,
        ),
    decreases m,
{
    let l = early.len() as int;
    let before = fills_of(taker, makers, early, first, l);
    if m == 0 {
        lemma_fills_agree(taker, makers, early + a, early, first, l);
        assert(before + Seq::<FillView>::empty() =~= before);
    } else {
        lemma_fills_after(taker, later_taker, makers, early, a, first, m - 1);
        let behind = makers.skip(l);
        let rest = fills_of(later_taker, behind, a, first + before.len(), m - 1);
        assert((early + a)[l + m - 1] == a[m - 1]);
        assert(makers[l + m - 1] == behind[m - 1]);
        if a[m - 1] > 0 {
            let f = fill_of(taker, makers[l + m - 1], a[m - 1], first + (before + rest).len());
            let ordinal = first + before.len() + rest.len();
            assert(f == fill_of(later_taker, behind[m - 1], a[m - 1], ordinal));
            assert((before + rest).push(f) =~= before + rest.push(f));
        }
    }
}

/// Taking nothing walks nowhere: the side stays as it is and there is no fill.
proof fn lemma_walk_nothing(taker: OrderView, theirs: Seq<OrderView>, first: nat, side: Side)
    requires
        side_wf(theirs, side),
    ensures
        consumed(theirs, walk(theirs, 0)) == theirs,
        fills_of(taker, theirs, walk(theirs, 0), first, theirs.len() as int) == Seq::<
            FillView,
        >::empty(),
{
    let n = theirs.len() as int;
    let qs = quantities(theirs);
    let none = Seq::<nat>::empty();
    assert(qs.take(0) =~= none);
    lemma_fifo_allocation_within(qs, 0, 0);
    assert(fifo_allocation(none, 0) =~= none);
    assert(walk(theirs, 0) =~= none + zeros(n));
    lemma_consumed_zeros(theirs, none, n, side);
    lemma_fills_zeros(taker, theirs, none, n, first);
    assert(survivors(theirs, none, 0) =~= Seq::<OrderView>::empty());
    assert(consumed(theirs, none) =~= theirs);
}

/// A walk that ends within the first `l` orders is a walk over those orders.
proof fn lemma_walk_ends(
    taker: OrderView,
    theirs: Seq<OrderView>,
    l: int,
    t: nat,
    first: nat,
    side: Side,
)
    requires
        side_wf(theirs, side),
        0 <= l <= theirs.len(),
        t <= total(quantities(theirs).take(l)),
    ensures
        ({
            let a = fifo_allocation(quantities(theirs).take(l), t);
            &&& consumed(theirs, walk(theirs, t)) == consumed(theirs, a)
            &&& fills_of(taker, theirs, walk(theirs, t), first, theirs.len() as int) == fills_of(
                taker,
                theirs,
                a,
                first,
                l,
            )
        }),
{
    let n = theirs.len() as int;
    let qs = quantities(theirs);
    let a = fifo_allocation(qs.take(l), t);
    lemma_fifo_allocation_within(qs, t, l);
    lemma_consumed_zeros(theirs, a, n - l, side);
    lemma_fills_zeros(taker, theirs, a, n - l, first);
}

/// A walk that takes all the first `l` orders hold, and `more`, is a walk
/// of `more` over the orders behind them, after the fills with the first `l`.
proof fn lemma_walk_goes_on(
    taker: OrderView,
    later_taker: OrderView,
    theirs: Seq<OrderView>,
    l: int,
    more: nat,
    first: nat,
)
    requires
        taker.client_order_id == later_taker.client_order_id,
        0 <= l <= theirs.len(),
    ensures
        ({
            let a = quantities(theirs).take(l);
            let gives = walk(theirs, total(a) + more);
            let behind = walk(theirs.skip(l), more);
            let now = fills_of(taker, theirs, a, first, l);
            &&& consumed(theirs, gives) == consumed(theirs.skip(l), behind)
            &&& fills_of(taker, theirs, gives, first, theirs.len() as int) == now + fills_of(
                later_taker,
                theirs.skip(l),
                behind,
                first + now.len(),
                theirs.len() - l,
            )
        }),
{
    let n = theirs.len() as int;
    let qs = quantities(theirs);
    let a = qs.take(l);
    let behind = walk(theirs.skip(l), more);
    assert(quantities(theirs.skip(l)) =~= qs.skip(l));
    lemma_fifo_allocation_beyond(qs, l, more);
    lemma_consumed_after_all(theirs, a, behind);
    lemma_fills_after(taker, later_taker, theirs, a, behind, first, n - l);
}

/// A round under price-time priority of a crossed book with a sole taker,
/// told in terms of the opposite side `theirs` and its best level, which is
/// made of its first `l` orders.
proof fn lemma_sole_taker_fifo_round(s: BookView, own: Side, first: nat)
    requires
        sole_taker(s, own),
        s.crossed(),
    ensures
        ({
            let m = Matcher::Fifo;
            let theirs = s.side(own.spec_opposite());
            let head = s.side(own)[0];
            let l = level_len(theirs) as int;
            let level = quantities(theirs).take(l);
            let t = s.round_quantity();
            let a = fifo_allocation(level, t);
            let now = fills_of(head, theirs, a, first, l);
            let next = m.round(s);
            &&& side_wf(theirs, own.spec_opposite())
            &&& 0 <= l <= theirs.len()
            &&& t <= total(level)
            &&& filled_quantity(now) == t
            &&& m.settled(s) == m.settled(next)
            &&& m.fills(s, first) == now + m.fills(next, first + now.len())
            &&& next.side(own.spec_opposite()) == consumed(theirs, a)
            &&& t >= head.quantity ==> !next.crossed()
            &&& t < head.quantity ==> {
                &&& sole_taker(next, own)
                &&& next.resting() < s.resting()
                &&& next.side(own)[0].client_order_id == head.client_order_id
                &&& next.side(own.spec_opposite()) == theirs.skip(l)
                &&& t == total(level)
                &&& a == level
            }
        }),
{
    let m = Matcher::Fifo;
    let other = own.spec_opposite();
    let theirs = s.side(other);
    let l = level_len(theirs) as int;
    let level = quantities(theirs).take(l);
    let t = s.round_quantity();
    let a = m.round_allocation(s);
    m.lemma_round(s);
    m.lemma_round_fills(s, first);
    m.lemma_round_sides(s);
    m.lemma_sole_taker_round(s, own);
    lemma_level(theirs, other);
    assert(s.level() == level);
    assert(a == fifo_allocation(level, t));
}

/// A pass under price-time priority on a book with a sole taker walks the
/// opposite side from the front.
proof fn lemma_sole_taker_walks(s: BookView, own: Side, first: nat)
    requires
        sole_taker(s, own),
    ensures
        ({
            let theirs = s.side(own.spec_opposite());
            let fills = Matcher::Fifo.fills(s, first);
            let gives = walk(theirs, filled_quantity(fills));
            &&& Matcher::Fifo.settled(s).side(own.spec_opposite()) == consumed(theirs, gives)
            &&& fills == fills_of(s.side(own)[0], theirs, gives, first, theirs.len() as int)
        }),
    decreases s.resting(),
{
    let m = Matcher::Fifo;
    let other = own.spec_opposite();
    let head = s.side(own)[0];
    let theirs = s.side(other);
    if s.crossed() {
        let l = level_len(theirs) as int;
        let t = s.round_quantity();
        let a = fifo_allocation(quantities(theirs).take(l), t);
        let now = fills_of(head, theirs, a, first, l);
        let next = m.round(s);
        let later = m.fills(next, first + now.len());
        lemma_sole_taker_fifo_round(s, own, first);
        lemma_filled_quantity_add(now, later);
        if t < head.quantity {
            lemma_sole_taker_walks(next, own, first + now.len());
            lemma_walk_goes_on(head, next.side(own)[0], theirs, l, filled_quantity(later), first);
        } else {
            m.lemma_rest(next, first + now.len());
            assert(now + later =~= now);
            lemma_walk_ends(head, theirs, l, t, first, other);
        }
    } else {
        m.lemma_rest(s, first);
        lemma_walk_nothing(head, theirs, first, other);
    }
}

/// Price-time matching walks the book. When an acceptable order arrives at
/// a book that is not crossed, the pass that follows takes what it trades
/// from the front of the opposite side: every resting order gives all it
/// holds before the order behind it gives anything. The fills are the
/// fills with those orders, in their order.
pub proof fn lemma_fifo_walks_the_book(b: BookView, o: OrderView, first: nat)
    requires
        b.wf(),
        !b.crossed(),
        o.acceptable(),
    ensures
        ({
            let arrived = b.inserted(o);
            let theirs = b.side(o.side.spec_opposite());
            let fills = Matcher::Fifo.fills(arrived, first);
            let gives = walk(theirs, filled_quantity(fills));
            &&& Matcher::Fifo.settled(arrived).side(o.side.spec_opposite()) == consumed(
                theirs,
                gives,
            )
            &&& fills == fills_of(
                o.stamped(b.next_sequence),
                theirs,
                gives,
                first,
                theirs.len() as int,
            )
        }),
{
    let m = Matcher::Fifo;
    let arrived = b.inserted(o);
    let other = o.side.spec_opposite();
    let theirs = b.side(other);
    b.lemma_inserted_wf(o);
    assert(arrived.side(other) == theirs);
    if arrived.crossed() {
        lemma_arrival_sole_taker(b, o);
        lemma_sole_taker_walks(arrived, o.side, first);
    } else {
        m.lemma_rest(arrived, first);
        lemma_walk_nothing(o.stamped(b.next_sequence), theirs, first, other);
    }
}

} // verus!
