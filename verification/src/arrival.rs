//! What holds when an order arrives at a book that is not crossed.
//!
//! The arrival is then the only taker of the pass that follows: every fill
//! is a fill of the arrival, the orders that rest beside it are not touched,
//! and the arrival trades all it can.

use crate::allocation::{lemma_total_add, lemma_total_take_bounds, lemma_total_tight, total};
use crate::book_view::{
    consumed, derived, lemma_consumed, lemma_consumed_all, lemma_consumed_head, lemma_slot,
    quantities, residue, resting_quantity, side_wf, slot, BookView,
};
use crate::counting::{count, lemma_count_behind, lemma_count_prefix};
use crate::matching::{
    filled_quantity, lemma_filled_quantity_add, lemma_level, level_len, level_quantities, Matcher,
};
use crate::order::{FillView, OrderView, Side};
use vstd::prelude::*;

verus! {

/// Of the orders `mine` of one side and the orders `theirs` of the other,
/// only the first of `mine` can take: it arrived after every order of
/// `theirs`, and no order behind it can trade with any order of `theirs`.
pub open spec fn only_head_takes(mine: Seq<OrderView>, theirs: Seq<OrderView>) -> bool {
    &&& mine.len() > 0
    &&& forall|j: int| 0 <= j < theirs.len() ==> (#[trigger] theirs[j]).sequence < mine[0].sequence
    &&& forall|i: int, j: int|
        1 <= i < mine.len() && 0 <= j < theirs.len() ==> !(#[trigger] mine[i]).meets(
            #[trigger] theirs[j],
        )
}

/// The first order of `own` is the only order of the book that can take.
pub open spec fn sole_taker(s: BookView, own: Side) -> bool {
    s.wf() && only_head_takes(s.side(own), s.side(own.spec_opposite()))
}

/// While the first order stays, however much of it is left, and the other
/// side only loses quantity, the first order remains the only one that can
/// take.
proof fn lemma_head_still_takes(
    mine: Seq<OrderView>,
    theirs: Seq<OrderView>,
    stay: Seq<OrderView>,
    left: Seq<OrderView>,
)
    requires
        only_head_takes(mine, theirs),
        derived(left, theirs),
        stay.len() == mine.len(),
        residue(stay[0], mine[0]),
        forall|i: int| 1 <= i < mine.len() ==> #[trigger] stay[i] == mine[i],
    ensures
        only_head_takes(stay, left),
{
    assert forall|j: int| 0 <= j < left.len() implies (#[trigger] left[j]).sequence
        < stay[0].sequence by {
        let k = choose|k: int| 0 <= k < theirs.len() && residue(left[j], #[trigger] theirs[k]);
        assert(theirs[k].sequence < mine[0].sequence);
    }
    assert forall|i: int, j: int| 1 <= i < stay.len() && 0 <= j < left.len() implies !(
    #[trigger] stay[i]).meets(#[trigger] left[j]) by {
        let k = choose|k: int| 0 <= k < theirs.len() && residue(left[j], #[trigger] theirs[k]);
        assert(stay[i] == mine[i]);
        assert(!mine[i].meets(theirs[k]));
    }
}

/// Once the first order has left, nothing can trade.
proof fn lemma_nothing_takes(mine: Seq<OrderView>, theirs: Seq<OrderView>, left: Seq<OrderView>)
    requires
        only_head_takes(mine, theirs),
        derived(left, theirs),
        mine.len() > 1,
        left.len() > 0,
    ensures
        !mine[1].meets(left[0]),
{
    let k = choose|k: int| 0 <= k < theirs.len() && residue(left[0], #[trigger] theirs[k]);
    assert(!mine[1].meets(theirs[k]));
}

/// Every fill of `fs` names `id` as its taker.
pub open spec fn taken_by(fs: Seq<FillView>, id: Seq<char>) -> bool {
    forall|x: int| 0 <= x < fs.len() ==> (#[trigger] fs[x]).taker_order_id == id
}

/// Fills of one taker followed by fills of the same taker are fills of that
/// taker.
proof fn lemma_taken_by_both(now: Seq<FillView>, later: Seq<FillView>, id: Seq<char>)
    requires
        taken_by(now, id),
        taken_by(later, id),
    ensures
        taken_by(now + later, id),
{
    assert forall|x: int| 0 <= x < (now + later).len() implies (#[trigger] (now
        + later)[x]).taker_order_id == id by {
        if x < now.len() {
            assert((now + later)[x] == now[x]);
        } else {
            assert((now + later)[x] == later[x - now.len()]);
        }
    }
}

/// Taking nothing from the first order of a side leaves the side as it is.
proof fn lemma_consumed_nothing(mine: Seq<OrderView>)
    requires
        mine.len() > 0,
        mine[0].quantity > 0,
    ensures
        consumed(mine, seq![0nat]) == mine,
{
    lemma_consumed_head(mine, 0);
    assert(mine[0].reduced(0) == mine[0]);
    assert(seq![mine[0]] + mine.skip(1) =~= mine);
}

/// Taking `t` units from the first order of a side, which holds more, and
/// then `more` units is taking `t + more` units from it.
proof fn lemma_consumed_again(mine: Seq<OrderView>, t: nat, more: nat)
    requires
        mine.len() > 0,
        t < mine[0].quantity,
    ensures
        consumed(consumed(mine, seq![t]), seq![more]) == consumed(mine, seq![t + more]),
{
    let stay = consumed(mine, seq![t]);
    lemma_consumed_head(mine, t);
    lemma_consumed_head(stay, more);
    lemma_consumed_head(mine, t + more);
    assert(stay.skip(1) =~= mine.skip(1));
    assert(mine[0].reduced(t).reduced(more) == mine[0].reduced(t + more));
}

/// In a book that is not crossed no bid can trade with any ask.
proof fn lemma_uncrossed(b: BookView, own: Side, i: int, j: int)
    requires
        b.wf(),
        !b.crossed(),
        0 <= i < b.side(own).len(),
        0 <= j < b.side(own.spec_opposite()).len(),
    ensures
        !b.side(own)[i].meets(b.side(own.spec_opposite())[j]),
{
    let mine = b.side(own);
    let theirs = b.side(own.spec_opposite());
    if i > 0 {
        assert(mine[0].precedes(mine[i]));
    }
    if j > 0 {
        assert(theirs[0].precedes(theirs[j]));
    }
    assert(!mine[0].meets(theirs[0]));
}

/// An arrival that crosses a book which was not crossed comes to rest in
/// front of its side and is the only order that can take.
pub proof fn lemma_arrival_sole_taker(b: BookView, o: OrderView)
    requires
        b.wf(),
        !b.crossed(),
        o.acceptable(),
        b.inserted(o).crossed(),
    ensures
        b.inserted(o).side(o.side)[0] == o.stamped(b.next_sequence),
        sole_taker(b.inserted(o), o.side),
{
    let arrived = b.inserted(o);
    let own = o.side;
    let other = own.spec_opposite();
    let x = o.stamped(b.next_sequence);
    let old = b.side(own);
    let k = slot(old, x) as int;
    let mine = arrived.side(own);
    let theirs = arrived.side(other);
    b.lemma_inserted_wf(o);
    lemma_slot(old, x, own);
    assert(mine == old.insert(k, x));
    assert(theirs == b.side(other));
    if k > 0 {
        assert(mine[0] == old[0]);
        lemma_uncrossed(b, own, 0, 0);
    }
    assert(mine[0] == x);
    assert forall|i: int, j: int| 1 <= i < mine.len() && 0 <= j < theirs.len() implies !(
    #[trigger] mine[i]).meets(#[trigger] theirs[j]) by {
        assert(mine[i] == old[i - 1]);
        lemma_uncrossed(b, own, i - 1, j);
    }
}

impl Matcher {
    /// The sides of a crossed book after a round: the taker's side has given
    /// what trades from its first order, the other side has given its
    /// allocation.
    pub proof fn lemma_round_sides(self, s: BookView)
        requires
            s.crossed(),
        ensures
            self.round(s).side(s.taker_side()) == consumed(
                s.side(s.taker_side()),
                seq![s.round_quantity()],
            ),
            self.round(s).side(s.taker_side().spec_opposite()) == consumed(
                s.makers(),
                self.round_allocation(s),
            ),
    {
    }

    /// A round of a book with a sole taker: that order takes. If it holds
    /// more than trades, it is the sole taker of the next round too;
    /// otherwise it leaves and the book is no longer crossed.
    pub proof fn lemma_sole_taker_round(self, s: BookView, own: Side)
        requires
            sole_taker(s, own),
            s.crossed(),
        ensures
            s.taker_side() == own,
            s.taker() == s.side(own)[0],
            s.round_quantity() <= s.side(own)[0].quantity,
            self.round(s).side(own) == consumed(s.side(own), seq![s.round_quantity()]),
            s.round_quantity() < s.side(own)[0].quantity ==> {
                &&& sole_taker(self.round(s), own)
                &&& self.round(s).side(own)[0] == s.side(own)[0].reduced(s.round_quantity())
                &&& self.round(s).side(own.spec_opposite()) == s.side(own.spec_opposite()).skip(
                    s.level().len() as int,
                )
                &&& self.round_allocation(s) == s.level()
                &&& s.round_quantity() == total(s.level())
            },
            s.round_quantity() >= s.side(own)[0].quantity ==> !self.round(s).crossed(),
    {
        let other = own.spec_opposite();
        let mine = s.side(own);
        let theirs = s.side(other);
        let t = s.round_quantity();
        let a = self.round_allocation(s);
        let next = self.round(s);
        assert(s.taker_side() == own) by {
            assert(theirs[0].sequence < mine[0].sequence);
        }
        self.lemma_round(s);
        self.lemma_round_sides(s);
        lemma_consumed(theirs, a, other);
        lemma_consumed_head(mine, t);
        let stay = next.side(own);
        let left = next.side(other);
        if t < mine[0].quantity {
            assert(stay == seq![mine[0].reduced(t)] + mine.skip(1));
            lemma_head_still_takes(mine, theirs, stay, left);
            // The level is exhausted: every maker of it gives all it holds.
            lemma_level(theirs, other);
            lemma_total_tight(a, s.level());
            lemma_consumed_all(theirs, a);
        } else {
            assert(stay == mine.skip(1));
            if stay.len() > 0 && left.len() > 0 {
                lemma_nothing_takes(mine, theirs, left);
                assert(stay[0] == mine[1]);
            }
        }
    }

    /// A pass on a book with a sole taker: all fills of the pass are fills
    /// of that order, and the pass leaves its side as it was but for what
    /// the order traded.
    proof fn lemma_sole_taker_pass(self, s: BookView, own: Side, first: nat)
        requires
            sole_taker(s, own),
        ensures
            filled_quantity(self.fills(s, first)) <= s.side(own)[0].quantity,
            self.settled(s).side(own) == consumed(
                s.side(own),
                seq![filled_quantity(self.fills(s, first))],
            ),
            taken_by(self.fills(s, first), s.side(own)[0].client_order_id),
            self.fills(s, first).len() <= s.side(own.spec_opposite()).len(),
        decreases s.resting(),
    {
        let mine = s.side(own);
        if s.crossed() {
            let t = s.round_quantity();
            let now = self.round_fills(s, first);
            let next = self.round(s);
            let later = self.fills(next, first + now.len());
            self.lemma_round(s);
            self.lemma_round_fills(s, first);
            self.lemma_sole_taker_round(s, own);
            lemma_filled_quantity_add(now, later);
            if t < mine[0].quantity {
                self.lemma_sole_taker_pass(next, own, first + now.len());
                lemma_consumed_again(mine, t, filled_quantity(later));
            } else {
                self.lemma_rest(next, first + now.len());
            }
            assert(taken_by(now, mine[0].client_order_id));
            lemma_taken_by_both(now, later, mine[0].client_order_id);
        } else {
            self.lemma_rest(s, first);
            lemma_consumed_nothing(mine);
        }
    }

    /// The arrival is the taker. When an acceptable order arrives at a book
    /// that is not crossed, the pass that follows has one taker, the
    /// arrival: every fill names it as the taker, what the fills trade is
    /// what the arrival gives, and the pass leaves the arrival's side as it
    /// was but for that. The opposite side gives the same quantity. There
    /// are no more fills than orders rested on the opposite side.
    pub proof fn lemma_arrival_takes(self, b: BookView, o: OrderView, first: nat)
        requires
            b.wf(),
            !b.crossed(),
            o.acceptable(),
        ensures
            ({
                let arrived = b.inserted(o);
                let fills = self.fills(arrived, first);
                let after = self.settled(arrived);
                let other = o.side.spec_opposite();
                &&& filled_quantity(fills) <= o.quantity
                &&& arrived.crossed() ==> arrived.side(o.side)[0] == o.stamped(b.next_sequence)
                &&& after.side(o.side) == consumed(
                    arrived.side(o.side),
                    seq![filled_quantity(fills)],
                )
                &&& resting_quantity(after.side(other)) + filled_quantity(fills)
                    == resting_quantity(b.side(other))
                &&& taken_by(fills, o.client_order_id)
                &&& fills.len() <= b.side(other).len()
            }),
    {
        let arrived = b.inserted(o);
        let own = o.side;
        let mine = arrived.side(own);
        b.lemma_inserted_wf(o);
        self.lemma_pass(arrived, first);
        assert(arrived.side(own.spec_opposite()) == b.side(own.spec_opposite()));
        if arrived.crossed() {
            lemma_arrival_sole_taker(b, o);
            self.lemma_sole_taker_pass(arrived, own, first);
        } else {
            self.lemma_rest(arrived, first);
            assert(mine.len() > 0);
            lemma_consumed_nothing(mine);
        }
    }
}

/// The orders of `theirs` that `o`, an order of the opposite side, can trade
/// with, as a predicate on indices.
pub open spec fn met_by(o: OrderView, theirs: Seq<OrderView>) -> spec_fn(int) -> bool {
    |k: int| o.meets(theirs[k])
}

/// The quantity within reach of `o`: what the orders of `theirs` that `o`
/// can trade with hold together. On a well-formed side those orders stand in
/// front.
pub open spec fn within_reach(o: OrderView, theirs: Seq<OrderView>) -> nat {
    total(quantities(theirs).take(count(theirs.len() as int, met_by(o, theirs)) as int))
}

/// On a well-formed side the orders that `o` can trade with are exactly the
/// first so many.
proof fn lemma_reach(o: OrderView, theirs: Seq<OrderView>, side: Side)
    requires
        side_wf(theirs, side),
        o.side == side.spec_opposite(),
    ensures
        count(theirs.len() as int, met_by(o, theirs)) <= theirs.len(),
        forall|k: int|
            0 <= k < theirs.len() ==> (o.meets(#[trigger] theirs[k]) <==> k < count(
                theirs.len() as int,
                met_by(o, theirs),
            )),
{
    let p = met_by(o, theirs);
    assert forall|i: int, j: int| 0 <= i < j < theirs.len() && #[trigger] p(j) implies #[trigger] p(
        i,
    ) by {
        assert(theirs[i].precedes(theirs[j]));
    }
    lemma_count_prefix(theirs.len() as int, p);
    assert forall|k: int| 0 <= k < theirs.len() implies (o.meets(#[trigger] theirs[k]) <==> k
        < count(theirs.len() as int, p)) by {
        assert(p(k) == o.meets(theirs[k]));
    }
}

/// Behind `l` orders that `o` can trade with, what is within reach is less
/// by what those orders hold. It does not matter how much `o` holds.
proof fn lemma_reach_behind(
    o: OrderView,
    later: OrderView,
    theirs: Seq<OrderView>,
    l: int,
    side: Side,
)
    requires
        side_wf(theirs, side),
        o.side == side.spec_opposite(),
        later.side == o.side,
        later.limit() == o.limit(),
        0 <= l <= theirs.len(),
        forall|k: int| 0 <= k < l ==> o.meets(#[trigger] theirs[k]),
    ensures
        within_reach(o, theirs) == total(quantities(theirs).take(l)) + within_reach(
            later,
            theirs.skip(l),
        ),
{
    let n = theirs.len() as int;
    let qs = quantities(theirs);
    let behind = theirs.skip(l);
    let p = met_by(o, theirs);
    let q = met_by(later, behind);
    assert forall|i: int| 0 <= i < n - l implies (#[trigger] q(i) <==> p(l + i)) by {
        assert(behind[i] == theirs[l + i]);
    }
    assert forall|i: int| 0 <= i < l implies #[trigger] p(i) by {
        assert(o.meets(theirs[i]));
    }
    lemma_count_behind(n, l, p, q);
    lemma_reach(o, theirs, side);
    let c = count(n, p) as int;
    assert(quantities(behind) =~= qs.skip(l));
    assert(qs.take(c) =~= qs.take(l) + qs.skip(l).take(c - l));
    lemma_total_add(qs.take(l), qs.skip(l).take(c - l));
}

/// An order that can trade with the best order of a side can trade with the
/// whole best level, so all the level holds is within its reach.
proof fn lemma_level_within_reach(o: OrderView, theirs: Seq<OrderView>, side: Side)
    requires
        side_wf(theirs, side),
        o.side == side.spec_opposite(),
        theirs.len() > 0,
        o.meets(theirs[0]),
    ensures
        total(level_quantities(theirs)) <= within_reach(o, theirs),
        forall|k: int| 0 <= k < level_len(theirs) ==> o.meets(#[trigger] theirs[k]),
{
    let qs = quantities(theirs);
    let l = level_len(theirs) as int;
    let c = count(theirs.len() as int, met_by(o, theirs)) as int;
    lemma_reach(o, theirs, side);
    lemma_level(theirs, side);
    assert forall|k: int| 0 <= k < l implies o.meets(#[trigger] theirs[k]) by {
        assert(theirs[k].limit() == theirs[0].limit());
    }
    assert(l <= c) by {
        assert(o.meets(theirs[l - 1]));
    }
    lemma_total_take_bounds(qs.take(c), l);
    assert(qs.take(c).take(l) =~= qs.take(l));
}

impl Matcher {
    /// A pass on a book with a sole taker trades all that order holds, or
    /// all that is within its reach if that is less.
    proof fn lemma_sole_taker_trades(self, s: BookView, own: Side, first: nat)
        requires
            sole_taker(s, own),
        ensures
            filled_quantity(self.fills(s, first)) == if s.side(own)[0].quantity <= within_reach(
                s.side(own)[0],
                s.side(own.spec_opposite()),
            ) {
                s.side(own)[0].quantity
            } else {
                within_reach(s.side(own)[0], s.side(own.spec_opposite()))
            },
        decreases s.resting(),
    {
        let other = own.spec_opposite();
        let head = s.side(own)[0];
        let theirs = s.side(other);
        if s.crossed() {
            let t = s.round_quantity();
            let now = self.round_fills(s, first);
            let next = self.round(s);
            let later = self.fills(next, first + now.len());
            self.lemma_round(s);
            self.lemma_round_fills(s, first);
            self.lemma_sole_taker_round(s, own);
            lemma_filled_quantity_add(now, later);
            lemma_level_within_reach(head, theirs, other);
            if t < head.quantity {
                self.lemma_sole_taker_trades(next, own, first + now.len());
                lemma_level(theirs, other);
                lemma_reach_behind(head, next.side(own)[0], theirs, s.level().len() as int, other);
            } else {
                self.lemma_rest(next, first + now.len());
            }
        } else {
            self.lemma_rest(s, first);
            lemma_reach(head, theirs, other);
            if theirs.len() > 0 {
                assert(!head.meets(theirs[0]));
            }
            assert(quantities(theirs).take(0) =~= Seq::<nat>::empty());
        }
    }

    /// The arrival trades all it can. When an acceptable order arrives at a
    /// book that is not crossed, the pass that follows trades all the order
    /// holds, or all that the orders it can trade with hold if that is less.
    pub proof fn lemma_arrival_trades_all_it_can(self, b: BookView, o: OrderView, first: nat)
        requires
            b.wf(),
            !b.crossed(),
            o.acceptable(),
        ensures
            filled_quantity(self.fills(b.inserted(o), first)) == if o.quantity <= within_reach(
                o,
                b.side(o.side.spec_opposite()),
            ) {
                o.quantity
            } else {
                within_reach(o, b.side(o.side.spec_opposite()))
            },
    {
        let arrived = b.inserted(o);
        let other = o.side.spec_opposite();
        let theirs = b.side(other);
        let x = o.stamped(b.next_sequence);
        b.lemma_inserted_wf(o);
        assert(arrived.side(other) == theirs);
        assert(met_by(x, theirs) =~= met_by(o, theirs));
        if arrived.crossed() {
            lemma_arrival_sole_taker(b, o);
            self.lemma_sole_taker_trades(arrived, o.side, first);
        } else {
            self.lemma_rest(arrived, first);
            lemma_reach(o, theirs, other);
            if theirs.len() > 0 {
                // The arrival cannot trade with the best opposing order:
                // otherwise it would rest in front and the book were crossed.
                let mine = b.side(o.side);
                let k = slot(mine, x) as int;
                lemma_slot(mine, x, o.side);
                assert(arrived.side(o.side) == mine.insert(k, x));
                if k == 0 {
                    assert(arrived.side(o.side)[0] == x);
                } else {
                    assert(arrived.side(o.side)[0] == mine[0]);
                    assert(mine[0].precedes(x));
                }
                assert(!o.meets(theirs[0]));
            }
            assert(quantities(theirs).take(0) =~= Seq::<nat>::empty());
        }
    }
}

} // verus!
