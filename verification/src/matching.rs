//! Matching as a function on book states.
//!
//! A matching pass is a series of rounds. Each round pairs the taker, the
//! later arrival of the two best orders, with the makers of the best
//! opposing price level, and divides what can trade among those makers by
//! the rule of the [`Matcher`]. Rounds go on until the book is no longer
//! crossed.

use crate::allocation::{
    fifo_allocation, lemma_fifo_allocation_exact, lemma_prorata_allocation_exact, lemma_total_add,
    lemma_total_at_least, lemma_total_take_bounds, lemma_total_tight, prorata_allocation, total,
};
use crate::book_view::{
    consumed, lemma_consumed, quantities, resting_quantity, side_wf, BookView,
};
use crate::counting::{count, lemma_count_prefix};
use crate::order::{FillView, OrderView, Side};
use vstd::prelude::*;

verus! {

/// The rule by which a taker's quantity is divided among the makers of a
/// price level.
#[derive(Clone, Copy, Debug, PartialEq, Eq, Structural)]
pub enum Matcher {
    /// Price-time priority: the oldest maker is served first.
    Fifo,
    /// Proportional allocation: every maker of the level is served according
    /// to what it holds.
    ProRata,
}

/// The orders of `s` that rest at the limit `p`, as a predicate on indices.
pub open spec fn at_limit(s: Seq<OrderView>, p: nat) -> spec_fn(int) -> bool {
    |i: int| s[i].limit() == p
}

/// The number of orders in the best price level of `s`: those that rest at
/// the limit of its first order.
pub open spec fn level_len(s: Seq<OrderView>) -> nat {
    count(s.len() as int, at_limit(s, s[0].limit()))
}

/// The quantities of the orders of the best price level of `s`, oldest first.
pub open spec fn level_quantities(s: Seq<OrderView>) -> Seq<nat> {
    quantities(s).take(level_len(s) as int)
}

/// The record of `q` units trading between `taker` and `maker`, at the
/// maker's limit.
pub open spec fn fill_of(taker: OrderView, maker: OrderView, q: nat, ordinal: nat) -> FillView {
    FillView {
        taker_order_id: taker.client_order_id,
        maker_order_id: maker.client_order_id,
        price: maker.limit(),
        quantity: q,
        sequence: ordinal,
    }
}

/// The fills between `taker` and the first `k` of `makers`, oldest maker
/// first, where maker `i` gives `a[i]` units. A maker that gives nothing has
/// no fill. The fills are numbered from `first` on.
pub open spec fn fills_of(
    taker: OrderView,
    makers: Seq<OrderView>,
    a: Seq<nat>,
    first: nat,
    k: int,
) -> Seq<FillView>
    decreases k,
{
    if k <= 0 {
        Seq::empty()
    } else {
        let rest = fills_of(taker, makers, a, first, k - 1);
        if a[k - 1] == 0 {
            rest
        } else {
            rest.push(fill_of(taker, makers[k - 1], a[k - 1], first + rest.len()))
        }
    }
}

/// The quantity that the fills of `fs` trade together.
pub open spec fn filled_quantity(fs: Seq<FillView>) -> nat {
    total(Seq::new(fs.len(), |i: int| fs[i].quantity))
}

impl BookView {
    /// The side of the taker in a crossed book: of the two best orders, the
    /// one that arrived later.
    pub open spec fn taker_side(self) -> Side {
        if self.bids[0].sequence > self.asks[0].sequence {
            Side::Buy
        } else {
            Side::Sell
        }
    }

    /// The taker of a crossed book.
    pub open spec fn taker(self) -> OrderView {
        self.side(self.taker_side())[0]
    }

    /// The side that the taker of a crossed book trades against.
    pub open spec fn makers(self) -> Seq<OrderView> {
        self.side(self.taker_side().spec_opposite())
    }

    /// The quantities resting at the best price that opposes the taker.
    pub open spec fn level(self) -> Seq<nat> {
        level_quantities(self.makers())
    }

    /// What trades in the next round: all the taker holds, or all the level
    /// holds if that is less.
    pub open spec fn round_quantity(self) -> nat {
        if self.taker().quantity <= total(self.level()) {
            self.taker().quantity
        } else {
            total(self.level())
        }
    }
}

impl Matcher {
    /// How the rule divides `t` among makers that hold `qs`.
    pub open spec fn allocation(self, qs: Seq<nat>, t: nat) -> Seq<nat> {
        match self {
            Matcher::Fifo => fifo_allocation(qs, t),
            Matcher::ProRata => prorata_allocation(qs, t),
        }
    }

    /// What each maker of the level gives in the next round of a crossed book.
    pub open spec fn round_allocation(self, b: BookView) -> Seq<nat> {
        self.allocation(b.level(), b.round_quantity())
    }

    /// The fills of the next round of a crossed book, numbered from `first` on.
    pub open spec fn round_fills(self, b: BookView, first: nat) -> Seq<FillView> {
        let a = self.round_allocation(b);
        fills_of(b.taker(), b.makers(), a, first, a.len() as int)
    }

    /// A crossed book after its next round: the taker has given what trades,
    /// each maker of the level has given its allocation, and whoever holds
    /// nothing any more has left the book.
    pub open spec fn round(self, b: BookView) -> BookView {
        let side = b.taker_side();
        let takers = consumed(b.side(side), seq![b.round_quantity()]);
        let makers = consumed(b.makers(), self.round_allocation(b));
        b.with_side(side, takers).with_side(side.spec_opposite(), makers)
    }

    /// The book after a matching pass: rounds are played until the book is
    /// no longer crossed.
    pub open spec fn settled(self, b: BookView) -> BookView
        decreases b.resting(),
    {
        if b.wf() && b.crossed() {
            proof {
                self.lemma_round(b);
            }
            self.settled(self.round(b))
        } else {
            b
        }
    }

    /// The fills of a matching pass, in the order in which they occur,
    /// numbered from `first` on.
    pub open spec fn fills(self, b: BookView, first: nat) -> Seq<FillView>
        decreases b.resting(),
    {
        if b.wf() && b.crossed() {
            proof {
                self.lemma_round(b);
            }
            let now = self.round_fills(b, first);
            now + self.fills(self.round(b), first + now.len())
        } else {
            Seq::empty()
        }
    }

    /// The rule hands out exactly what trades and never more to a maker than
    /// the maker holds.
    pub proof fn lemma_allocation_exact(self, qs: Seq<nat>, t: nat)
        requires
            total(qs) > 0,
            t <= total(qs),
        ensures
            self.allocation(qs, t).len() == qs.len(),
            total(self.allocation(qs, t)) == t,
            forall|i: int| 0 <= i < qs.len() ==> #[trigger] self.allocation(qs, t)[i] <= qs[i],
    {
        match self {
            Matcher::Fifo => lemma_fifo_allocation_exact(qs, t),
            Matcher::ProRata => lemma_prorata_allocation_exact(qs, t),
        }
    }

    /// A round keeps the book well formed, removes at least one order, and
    /// takes the same quantity from both sides.
    pub proof fn lemma_round(self, b: BookView)
        requires
            b.wf(),
            b.crossed(),
        ensures
            self.round(b).wf(),
            self.round(b).resting() < b.resting(),
            self.round(b).next_sequence == b.next_sequence,
            0 < b.round_quantity() <= b.taker().quantity,
            self.round_allocation(b).len() == b.level().len(),
            b.level().len() <= b.makers().len(),
            total(self.round_allocation(b)) == b.round_quantity(),
            forall|i: int|
                0 <= i < b.level().len() ==> #[trigger] self.round_allocation(b)[i]
                    <= b.makers()[i].quantity,
            resting_quantity(self.round(b).bids) + b.round_quantity() == resting_quantity(b.bids),
            resting_quantity(self.round(b).asks) + b.round_quantity() == resting_quantity(b.asks),
    {
        let side = b.taker_side();
        let other = side.spec_opposite();
        let takers = b.side(side);
        let makers = b.makers();
        let t = b.round_quantity();
        let a = self.round_allocation(b);
        lemma_level(makers, other);
        let qs = b.level();
        lemma_total_at_least(qs, 0);
        self.lemma_allocation_exact(qs, t);
        let given = seq![t];
        assert(total(given) == t) by {
            assert(given.drop_last() =~= Seq::<nat>::empty());
            assert(total(given.drop_last()) == 0);
        }
        lemma_consumed(takers, given, side);
        lemma_consumed(makers, a, other);
        let b1 = b.with_side(side, consumed(takers, given));
        b.lemma_with_side_wf(side, consumed(takers, given));
        assert(b1.side(other) == makers);
        b1.lemma_with_side_wf(other, consumed(makers, a));
        if t < takers[0].quantity {
            // The level is exhausted: every maker of it gives all it holds.
            lemma_total_tight(a, qs);
            assert(a[0] >= makers[0].quantity);
        } else {
            assert(given[0] >= takers[0].quantity);
        }
    }
}

/// On a well-formed side the best price level is a prefix of the side: the
/// orders at the best limit are those in front of the level's length.
pub proof fn lemma_level(s: Seq<OrderView>, side: Side)
    requires
        side_wf(s, side),
        s.len() > 0,
    ensures
        1 <= level_len(s) <= s.len(),
        forall|i: int|
            0 <= i < s.len() ==> ((#[trigger] s[i]).limit() == s[0].limit() <==> i < level_len(s)),
        level_quantities(s).len() == level_len(s),
        forall|i: int| 0 <= i < level_len(s) ==> #[trigger] level_quantities(s)[i] == s[i].quantity,
{
    let p = at_limit(s, s[0].limit());
    assert forall|i: int, j: int| 0 <= i < j < s.len() && #[trigger] p(j) implies #[trigger] p(
        i,
    ) by {
        assert(s[i].precedes(s[j]));
        if i > 0 {
            assert(s[0].precedes(s[i]));
        }
    }
    lemma_count_prefix(s.len() as int, p);
    assert(p(0));
    assert forall|i: int| 0 <= i < s.len() implies ((#[trigger] s[i]).limit() == s[0].limit() <==> i
        < level_len(s)) by {
        assert(p(i) == (s[i].limit() == s[0].limit()));
    }
}


/// The quantities of the fills of `fs`, in order.
pub open spec fn fill_quantities(fs: Seq<FillView>) -> Seq<nat> {
    Seq::new(fs.len(), |i: int| fs[i].quantity)
}

/// The quantity traded by a concatenation is the sum of the parts.
pub proof fn lemma_filled_quantity_add(a: Seq<FillView>, b: Seq<FillView>)
    ensures
        filled_quantity(a + b) == filled_quantity(a) + filled_quantity(b),
{
    assert(fill_quantities(a + b) =~= fill_quantities(a) + fill_quantities(b));
    lemma_total_add(fill_quantities(a), fill_quantities(b));
}

/// The fills of the first `k` makers trade what those makers give. Each
/// fill trades a positive quantity with one of those makers at the maker's
/// limit, and the fills are numbered consecutively.
pub proof fn lemma_fills_of(
    taker: OrderView,
    makers: Seq<OrderView>,
    a: Seq<nat>,
    first: nat,
    k: int,
)
    requires
        0 <= k <= a.len(),
    ensures
        fills_of(taker, makers, a, first, k).len() <= k,
        filled_quantity(fills_of(taker, makers, a, first, k)) == total(a.take(k)),
        forall|x: int|
            0 <= x < fills_of(taker, makers, a, first, k).len() ==> {
                let f = #[trigger] fills_of(taker, makers, a, first, k)[x];
                &&& f.sequence == first + x
                &&& f.quantity > 0
                &&& f.taker_order_id == taker.client_order_id
                &&& exists|i: int|
                    0 <= i < k && f.quantity == #[trigger] a[i] && f.price == makers[i].limit()
                        && f.maker_order_id == makers[i].client_order_id
            },
    decreases k,
{
    let fs = fills_of(taker, makers, a, first, k);
    if k == 0 {
        assert(a.take(0) =~= Seq::<nat>::empty());
        assert(fill_quantities(fs) =~= Seq::<nat>::empty());
    } else {
        lemma_fills_of(taker, makers, a, first, k - 1);
        let rest = fills_of(taker, makers, a, first, k - 1);
        assert(a.take(k).drop_last() =~= a.take(k - 1));
        assert forall|x: int| 0 <= x < rest.len() implies {
            let f = #[trigger] rest[x];
            exists|i: int|
                0 <= i < k && f.quantity == #[trigger] a[i] && f.price == makers[i].limit()
                    && f.maker_order_id == makers[i].client_order_id
        } by {
            let f = rest[x];
            let i = choose|i: int|
                0 <= i < k - 1 && f.quantity == #[trigger] a[i] && f.price == makers[i].limit()
                    && f.maker_order_id == makers[i].client_order_id;
            assert(0 <= i < k && f.quantity == a[i]);
        }
        if a[k - 1] > 0 {
            let f = fill_of(taker, makers[k - 1], a[k - 1], first + rest.len());
            assert(fs == rest.push(f));
            assert(fill_quantities(fs).drop_last() =~= fill_quantities(rest));
            assert forall|x: int| 0 <= x < fs.len() implies {
                let g = #[trigger] fs[x];
                &&& g.sequence == first + x
                &&& g.quantity > 0
                &&& g.taker_order_id == taker.client_order_id
                &&& exists|i: int|
                    0 <= i < k && g.quantity == #[trigger] a[i] && g.price == makers[i].limit()
                        && g.maker_order_id == makers[i].client_order_id
            } by {
                if x < rest.len() {
                    assert(fs[x] == rest[x]);
                } else {
                    assert(fs[x] == f);
                    assert(0 <= k - 1 < k && f.quantity == a[k - 1]);
                }
            }
        }
    }
}

impl Matcher {
    /// The fills of a round trade exactly what the round takes from each side.
    pub proof fn lemma_round_fills(self, b: BookView, first: nat)
        requires
            b.wf(),
            b.crossed(),
        ensures
            filled_quantity(self.round_fills(b, first)) == b.round_quantity(),
            self.round_fills(b, first).len() <= b.level().len(),
            forall|x: int|
                0 <= x < self.round_fills(b, first).len() ==> {
                    let f = #[trigger] self.round_fills(b, first)[x];
                    &&& f.sequence == first + x
                    &&& f.quantity > 0
                    &&& f.taker_order_id == b.taker().client_order_id
                },
    {
        let a = self.round_allocation(b);
        self.lemma_round(b);
        lemma_fills_of(b.taker(), b.makers(), a, first, a.len() as int);
        lemma_total_take_bounds(a, a.len() as int);
    }

    /// A matching pass leaves a well-formed book that is not crossed. What
    /// left each side is what the fills of the pass trade. The fills are
    /// numbered consecutively and each trades a positive quantity.
    pub proof fn lemma_pass(self, b: BookView, first: nat)
        requires
            b.wf(),
        ensures
            self.settled(b).wf(),
            !self.settled(b).crossed(),
            self.settled(b).next_sequence == b.next_sequence,
            self.settled(b).resting() <= b.resting(),
            resting_quantity(self.settled(b).bids) + filled_quantity(self.fills(b, first))
                == resting_quantity(b.bids),
            resting_quantity(self.settled(b).asks) + filled_quantity(self.fills(b, first))
                == resting_quantity(b.asks),
            forall|x: int|
                0 <= x < self.fills(b, first).len() ==> {
                    let f = #[trigger] self.fills(b, first)[x];
                    &&& f.sequence == first + x
                    &&& f.quantity > 0
                },
        decreases b.resting(),
    {
        if b.crossed() {
            let now = self.round_fills(b, first);
            let next = self.round(b);
            let later = self.fills(next, first + now.len());
            self.lemma_round(b);
            self.lemma_round_fills(b, first);
            self.lemma_pass(next, first + now.len());
            lemma_filled_quantity_add(now, later);
            assert forall|x: int| 0 <= x < (now + later).len() implies {
                let f = #[trigger] (now + later)[x];
                &&& f.sequence == first + x
                &&& f.quantity > 0
            } by {
                if x < now.len() {
                    assert((now + later)[x] == now[x]);
                } else {
                    assert((now + later)[x] == later[x - now.len()]);
                }
            }
        } else {
            assert(fill_quantities(self.fills(b, first)) =~= Seq::<nat>::empty());
        }
    }
}

} // verus!
