//! What holds of every round and every matching pass, whichever rule divides
//! the quantity.

use crate::allocation::{fifo_allocation, lemma_fifo_time_priority, total};
use crate::book_view::{resting_quantity, BookView};
use crate::matching::{
    fill_quantities, filled_quantity, lemma_fills_of, lemma_level, Matcher,
};
use crate::order::{FillView, Side};
use vstd::prelude::*;

verus! {

impl Matcher {
    /// The book at the start of the round in which fill `x` of a pass on `b`
    /// occurs, where the fills of the pass are numbered from `first` on.
    pub open spec fn state_at_fill(self, b: BookView, first: nat, x: int) -> BookView
        decreases b.resting(),
    {
        let now = self.round_fills(b, first);
        if b.wf() && b.crossed() && x >= now.len() {
            proof {
                self.lemma_round(b);
            }
            self.state_at_fill(self.round(b), first + now.len(), x - now.len())
        } else {
            b
        }
    }

    /// Conservation, round by round: what the taker gives, what the makers
    /// of the level give together, and what the fills of the round trade
    /// are the same quantity, and it is what leaves each side of the book.
    pub proof fn lemma_round_conserves(self, b: BookView, first: nat)
        requires
            b.wf(),
            b.crossed(),
        ensures
            total(self.round_allocation(b)) == b.round_quantity(),
            filled_quantity(self.round_fills(b, first)) == b.round_quantity(),
            resting_quantity(b.bids) - resting_quantity(self.round(b).bids) == b.round_quantity(),
            resting_quantity(b.asks) - resting_quantity(self.round(b).asks) == b.round_quantity(),
    {
        self.lemma_round(b);
        self.lemma_round_fills(b, first);
    }

    /// Conservation over a pass: the quantity that leaves the bids, the
    /// quantity that leaves the asks and the quantity that the fills trade
    /// are the same.
    pub proof fn lemma_pass_conserves(self, b: BookView, first: nat)
        requires
            b.wf(),
        ensures
            resting_quantity(b.bids) - resting_quantity(self.settled(b).bids) == filled_quantity(
                self.fills(b, first),
            ),
            resting_quantity(b.asks) - resting_quantity(self.settled(b).asks) == filled_quantity(
                self.fills(b, first),
            ),
    {
        self.lemma_pass(b, first);
    }

    /// A pass never leaves the book crossed: when it ends, one side is
    /// empty or the best bid is below the best ask.
    pub proof fn lemma_pass_uncrosses(self, b: BookView)
        requires
            b.wf(),
        ensures
            self.settled(b).wf(),
            self.settled(b).bids.len() == 0 || self.settled(b).asks.len() == 0 || self.settled(
                b,
            ).bids[0].limit() < self.settled(b).asks[0].limit(),
    {
        self.lemma_pass(b, 0);
    }

    /// Price priority. Every fill of a pass is struck at the best opposing
    /// price at the time of the fill: the limit of the first maker of the
    /// book in which the fill's round starts. No order that opposes the
    /// taker offers a better price then, and the price is within the
    /// taker's own limit.
    pub proof fn lemma_price_priority(self, b: BookView, first: nat, x: int)
        requires
            b.wf(),
            0 <= x < self.fills(b, first).len(),
        ensures
            ({
                let s = self.state_at_fill(b, first, x);
                let f = self.fills(b, first)[x];
                &&& s.wf()
                &&& s.crossed()
                &&& f.price == s.makers()[0].limit()
                &&& f.taker_order_id == s.taker().client_order_id
                &&& s.taker_side() == Side::Buy ==> f.price <= s.taker().limit()
                &&& s.taker_side() == Side::Sell ==> f.price >= s.taker().limit()
                &&& forall|j: int|
                    0 <= j < s.makers().len() ==> (s.taker_side() == Side::Buy ==> f.price <= (
                    #[trigger] s.makers()[j]).limit())
                &&& forall|j: int|
                    0 <= j < s.makers().len() ==> (s.taker_side() == Side::Sell ==> f.price >= (
                    #[trigger] s.makers()[j]).limit())
            }),
        decreases b.resting(),
    {
        let now = self.round_fills(b, first);
        let later = self.fills(self.round(b), first + now.len());
        assert(b.crossed());
        self.lemma_round(b);
        if x < now.len() {
            let a = self.round_allocation(b);
            let makers = b.makers();
            assert((now + later)[x] == now[x]);
            lemma_fills_of(b.taker(), makers, a, first, a.len() as int);
            lemma_level(makers, b.taker_side().spec_opposite());
            let f = now[x];
            let i = choose|i: int|
                0 <= i < a.len() && f.quantity == #[trigger] a[i] && f.price == makers[i].limit()
                    && f.maker_order_id == makers[i].client_order_id;
            assert(makers[i].limit() == makers[0].limit());
            assert forall|j: int| 0 < j < makers.len() implies (#[trigger] makers[0]).precedes(
                #[trigger] makers[j],
            ) by {}
        } else {
            assert((now + later)[x] == later[x - now.len()]);
            self.lemma_price_priority(self.round(b), first + now.len(), x - now.len());
        }
    }

    /// A pass on a book that is not crossed yields no fill and leaves the
    /// book as it is.
    pub proof fn lemma_rest(self, b: BookView, first: nat)
        requires
            !b.crossed(),
        ensures
            self.settled(b) == b,
            self.fills(b, first) == Seq::<FillView>::empty(),
            filled_quantity(self.fills(b, first)) == 0,
    {
        assert(fill_quantities(self.fills(b, first)) =~= Seq::<nat>::empty());
    }

    /// A second pass right after a pass changes nothing and yields no fill.
    pub proof fn lemma_pass_idempotent(self, b: BookView, first: nat)
        requires
            b.wf(),
        ensures
            self.settled(self.settled(b)) == self.settled(b),
            self.fills(self.settled(b), first) == Seq::<FillView>::empty(),
    {
        self.lemma_pass(b, 0);
        self.lemma_rest(self.settled(b), first);
    }
}

/// Time priority under price-time matching. Of two makers at the same price,
/// the one that arrived later gives something in a round only if the one
/// that arrived earlier gives all it holds in that round.
pub proof fn lemma_time_priority(b: BookView, i: int, j: int)
    requires
        b.wf(),
        b.crossed(),
        0 <= i < b.makers().len(),
        0 <= j < Matcher::Fifo.round_allocation(b).len(),
        b.makers()[i].limit() == b.makers()[j].limit(),
        b.makers()[i].sequence < b.makers()[j].sequence,
        Matcher::Fifo.round_allocation(b)[j] > 0,
    ensures
        i < j,
        Matcher::Fifo.round_allocation(b)[i] == b.makers()[i].quantity,
{
    let makers = b.makers();
    let other = b.taker_side().spec_opposite();
    Matcher::Fifo.lemma_round(b);
    lemma_level(makers, other);
    if j < i {
        assert(makers[j].precedes(makers[i]));
    }
    assert(Matcher::Fifo.round_allocation(b) == fifo_allocation(b.level(), b.round_quantity()));
    lemma_fifo_time_priority(b.level(), b.round_quantity(), i, j);
}

} // verus!
