//! How a taker's quantity is divided among the makers of one price level.
//!
//! A level is given by the resting quantities of its makers, oldest first.
//! Both rules hand out exactly the taker's quantity and never more to a maker
//! than the maker holds.

use crate::counting::{
    count, lemma_count_all, lemma_count_bound, lemma_count_implies, lemma_count_none,
    lemma_count_split, lemma_count_unique,
};
use vstd::prelude::*;

verus! {

/// The sum of the quantities in `qs`.
pub open spec fn total(qs: Seq<nat>) -> nat
    decreases qs.len(),
{
    if qs.len() == 0 {
        0
    } else {
        total(qs.drop_last()) + qs.last()
    }
}

/// The quantities of `s` as natural numbers.
pub open spec fn nats(s: Seq<u64>) -> Seq<nat> {
    Seq::new(s.len(), |i: int| s[i] as nat)
}

/// Price-time share of maker `i`: what is left of `t` once every older maker
/// of the level has been served in full, capped by the maker's own quantity.
pub open spec fn fifo_share(qs: Seq<nat>, t: nat, i: int) -> nat {
    let before = total(qs.take(i));
    if t <= before {
        0
    } else if t - before >= qs[i] {
        qs[i]
    } else {
        (t - before) as nat
    }
}

/// The price-time allocation of `t` over the level `qs`.
pub open spec fn fifo_allocation(qs: Seq<nat>, t: nat) -> Seq<nat> {
    Seq::new(qs.len(), |i: int| fifo_share(qs, t, i))
}

/// Adding one more element to a prefix adds that element to the prefix sum.
pub proof fn lemma_total_take_step(qs: Seq<nat>, k: int)
    requires
        0 <= k < qs.len(),
    ensures
        total(qs.take(k + 1)) == total(qs.take(k)) + qs[k],
{
    assert(qs.take(k + 1).drop_last() =~= qs.take(k));
}

/// The prefix sums of a sequence grow with the prefix and end at its total.
pub proof fn lemma_total_take_bounds(qs: Seq<nat>, k: int)
    requires
        0 <= k <= qs.len(),
    ensures
        total(qs.take(k)) <= total(qs),
        k == qs.len() ==> total(qs.take(k)) == total(qs),
    decreases qs.len() - k,
{
    if k == qs.len() {
        assert(qs.take(k) =~= qs);
    } else {
        lemma_total_take_step(qs, k);
        lemma_total_take_bounds(qs, k + 1);
    }
}

/// The total of a concatenation is the sum of the totals.
pub proof fn lemma_total_add(a: Seq<nat>, b: Seq<nat>)
    ensures
        total(a + b) == total(a) + total(b),
    decreases b.len(),
{
    if b.len() == 0 {
        assert(a + b =~= a);
    } else {
        assert((a + b).drop_last() =~= a + b.drop_last());
        lemma_total_add(a, b.drop_last());
    }
}

/// A total is at least each of its elements.
pub proof fn lemma_total_at_least(qs: Seq<nat>, i: int)
    requires
        0 <= i < qs.len(),
    ensures
        qs[i] <= total(qs),
    decreases qs.len(),
{
    if i < qs.len() - 1 {
        lemma_total_at_least(qs.drop_last(), i);
    }
}

/// A sequence that is nowhere larger than another has no larger total. If
/// the totals are equal, so are the sequences.
pub proof fn lemma_total_tight(a: Seq<nat>, q: Seq<nat>)
    requires
        a.len() == q.len(),
        forall|i: int| 0 <= i < a.len() ==> #[trigger] a[i] <= q[i],
    ensures
        total(a) <= total(q),
        total(a) == total(q) ==> a =~= q,
    decreases a.len(),
{
    if a.len() > 0 {
        lemma_total_tight(a.drop_last(), q.drop_last());
        assert(a.last() <= q.last());
        if total(a) == total(q) {
            assert(a.drop_last() =~= q.drop_last());
            assert forall|i: int| 0 <= i < a.len() implies a[i] == q[i] by {
                if i < a.len() - 1 {
                    assert(a.drop_last()[i] == q.drop_last()[i]);
                }
            }
        }
    }
}

/// What the first `k` makers receive under price-time allocation: all of `t`,
/// or all they hold if that is less.
pub proof fn lemma_fifo_prefix(qs: Seq<nat>, t: nat, k: int)
    requires
        0 <= k <= qs.len(),
    ensures
        total(fifo_allocation(qs, t).take(k)) == if t <= total(qs.take(k)) {
            t
        } else {
            total(qs.take(k))
        },
    decreases k,
{
    let a = fifo_allocation(qs, t);
    if k == 0 {
        assert(a.take(0) =~= Seq::<nat>::empty());
        assert(qs.take(0) =~= Seq::<nat>::empty());
    } else {
        lemma_fifo_prefix(qs, t, k - 1);
        lemma_total_take_step(a, k - 1);
        lemma_total_take_step(qs, k - 1);
    }
}

/// Price-time allocation hands out exactly `t` when the level holds at least
/// `t`, and never more to a maker than the maker holds.
pub proof fn lemma_fifo_allocation_exact(qs: Seq<nat>, t: nat)
    requires
        t <= total(qs),
    ensures
        fifo_allocation(qs, t).len() == qs.len(),
        total(fifo_allocation(qs, t)) == t,
        forall|i: int| 0 <= i < qs.len() ==> #[trigger] fifo_allocation(qs, t)[i] <= qs[i],
{
    let a = fifo_allocation(qs, t);
    lemma_fifo_prefix(qs, t, qs.len() as int);
    lemma_total_take_bounds(qs, qs.len() as int);
    lemma_total_take_bounds(a, a.len() as int);
}

/// Time priority within a level: a maker receives something only after every
/// older maker of the level has been consumed in full.
pub proof fn lemma_fifo_time_priority(qs: Seq<nat>, t: nat, i: int, j: int)
    requires
        0 <= i < j < qs.len(),
        fifo_allocation(qs, t)[j] > 0,
    ensures
        fifo_allocation(qs, t)[i] == qs[i],
{
    // The makers before `j` hold less than `t` together, so the same holds
    // of the makers up to and including `i`.
    lemma_total_take_step(qs, i);
    assert(total(qs.take(i + 1)) <= total(qs.take(j))) by {
        lemma_total_take_bounds(qs.take(j), i + 1);
        assert(qs.take(j).take(i + 1) =~= qs.take(i + 1));
    }
}


/// Proportional share of maker `i`, rounded down: `floor(t * qs[i] / Q)`
/// where `Q` is the level's total.
pub open spec fn floor_share(qs: Seq<nat>, t: nat, i: int) -> nat {
    (t * qs[i]) / total(qs)
}

/// What rounding down took from maker `i`, in units of `1 / Q`: the
/// remainder of `t * qs[i]` by the level's total `Q`.
pub open spec fn remainder(qs: Seq<nat>, t: nat, i: int) -> nat {
    (t * qs[i]) % total(qs)
}

/// The rounded-down shares of all makers of the level.
pub open spec fn floor_shares(qs: Seq<nat>, t: nat) -> Seq<nat> {
    Seq::new(qs.len(), |i: int| floor_share(qs, t, i))
}

/// The remainders of all makers of the level.
pub open spec fn remainders(qs: Seq<nat>, t: nat) -> Seq<nat> {
    Seq::new(qs.len(), |i: int| remainder(qs, t, i))
}

/// The units of `t` that the rounded-down shares leave unassigned.
pub open spec fn leftover(qs: Seq<nat>, t: nat) -> nat {
    (t - total(floor_shares(qs, t))) as nat
}

/// Maker `j` is served before maker `i` when leftover units are handed out:
/// it has the larger remainder, or the same remainder and is older.
pub open spec fn outranks(rs: Seq<nat>, j: int, i: int) -> bool {
    rs[j] > rs[i] || (rs[j] == rs[i] && j < i)
}

/// The makers that outrank maker `i`, as a predicate on indices.
pub open spec fn outranking(rs: Seq<nat>, i: int) -> spec_fn(int) -> bool {
    |j: int| outranks(rs, j, i)
}

/// The position of maker `i` in the order in which leftover units are handed
/// out: the number of makers of the level that outrank it.
pub open spec fn rank(rs: Seq<nat>, i: int) -> nat {
    count(rs.len() as int, outranking(rs, i))
}

/// Whether maker `i` receives one of the leftover units: it does if it is
/// among the first `leftover` makers in the ranking.
pub open spec fn receives_extra(qs: Seq<nat>, t: nat, i: int) -> bool {
    rank(remainders(qs, t), i) < leftover(qs, t)
}

/// Pro-rata share of maker `i`: the rounded-down proportional share, plus one
/// unit if the maker receives one of the leftover units.
pub open spec fn prorata_share(qs: Seq<nat>, t: nat, i: int) -> nat {
    floor_share(qs, t, i) + if receives_extra(qs, t, i) {
        1nat
    } else {
        0nat
    }
}

/// The pro-rata allocation of `t` over the level `qs`.
pub open spec fn prorata_allocation(qs: Seq<nat>, t: nat) -> Seq<nat> {
    Seq::new(qs.len(), |i: int| prorata_share(qs, t, i))
}

/// The ranking is strict: of two makers, the one that outranks the other has
/// the smaller rank. Every rank lies below the number of makers.
proof fn lemma_rank_strict(rs: Seq<nat>, i: int, j: int)
    requires
        0 <= i < rs.len(),
        0 <= j < rs.len(),
        outranks(rs, i, j),
    ensures
        rank(rs, i) < rank(rs, j),
        rank(rs, j) < rs.len(),
{
    let n = rs.len() as int;
    let p = outranking(rs, i);
    let q = outranking(rs, j);
    assert(q(i) && !p(i));
    lemma_count_implies(n, p, q);
    // Maker `j` does not outrank itself.
    let all = |k: int| true;
    assert(all(j) && !q(j));
    lemma_count_implies(n, q, all);
    lemma_count_all(n, all);
}

/// Every rank lies below the number of makers.
proof fn lemma_rank_bound(rs: Seq<nat>, i: int)
    requires
        0 <= i < rs.len(),
    ensures
        rank(rs, i) < rs.len(),
{
    let n = rs.len() as int;
    let q = outranking(rs, i);
    let all = |k: int| true;
    assert(all(i) && !q(i));
    lemma_count_implies(n, q, all);
    lemma_count_all(n, all);
}

/// No two makers share a rank.
proof fn lemma_rank_injective(rs: Seq<nat>, i: int, j: int)
    requires
        0 <= i < rs.len(),
        0 <= j < rs.len(),
        i != j,
    ensures
        rank(rs, i) != rank(rs, j),
{
    if outranks(rs, i, j) {
        lemma_rank_strict(rs, i, j);
    } else {
        assert(outranks(rs, j, i));
        lemma_rank_strict(rs, j, i);
    }
}

/// The makers whose rank lies in `lo..hi`, as a predicate on indices.
pub open spec fn ranked_within(rs: Seq<nat>, lo: int, hi: int) -> spec_fn(int) -> bool {
    |i: int| lo <= rank(rs, i) < hi
}

/// At most `hi - lo` makers have a rank in `lo..hi`.
proof fn lemma_ranked_within_bound(rs: Seq<nat>, lo: int, hi: int)
    requires
        lo <= hi,
    ensures
        count(rs.len() as int, ranked_within(rs, lo, hi)) <= hi - lo,
    decreases hi - lo,
{
    let n = rs.len() as int;
    if lo == hi {
        lemma_count_none(n, ranked_within(rs, lo, hi));
    } else {
        lemma_ranked_within_bound(rs, lo, hi - 1);
        let here = ranked_within(rs, hi - 1, hi);
        assert forall|i: int, j: int|
            0 <= i < n && 0 <= j < n && #[trigger] here(i) && #[trigger] here(j) implies i == j by {
            if i != j {
                lemma_rank_injective(rs, i, j);
            }
        }
        lemma_count_unique(n, here);
        lemma_count_split(n, ranked_within(rs, lo, hi), ranked_within(rs, lo, hi - 1), here);
    }
}

/// The ranks are a permutation of the positions: exactly `l` makers have a
/// rank below `l`, for every `l` up to the number of makers.
pub proof fn lemma_ranked_below(rs: Seq<nat>, l: int)
    requires
        0 <= l <= rs.len(),
    ensures
        count(rs.len() as int, ranked_within(rs, 0, l)) == l,
{
    let n = rs.len() as int;
    lemma_ranked_within_bound(rs, 0, l);
    lemma_ranked_within_bound(rs, l, n);
    let every = ranked_within(rs, 0, n);
    assert forall|i: int| 0 <= i < n implies #[trigger] every(i) by {
        lemma_rank_bound(rs, i);
    }
    lemma_count_all(n, every);
    lemma_count_split(n, every, ranked_within(rs, 0, l), ranked_within(rs, l, n));
}


/// The makers with a positive remainder, as a predicate on indices.
pub open spec fn with_remainder(rs: Seq<nat>) -> spec_fn(int) -> bool {
    |i: int| rs[i] > 0
}

proof fn lemma_div_mod(x: nat, d: nat)
    requires
        d > 0,
    ensures
        x == d * (x / d) + x % d,
        x % d < d,
{
    assert(x == d * (x / d) + x % d && x % d < d) by (nonlinear_arith)
        requires
            d > 0,
    ;
}

proof fn lemma_distribute(t: int, a: int, b: int)
    ensures
        t * (a + b) == t * a + t * b,
{
    assert(t * (a + b) == t * a + t * b) by (nonlinear_arith);
}

/// Over any prefix of the level, `t` times the makers' quantities is the
/// level's total times their rounded-down shares, plus their remainders.
proof fn lemma_shares_prefix(qs: Seq<nat>, t: nat, k: int)
    requires
        total(qs) > 0,
        0 <= k <= qs.len(),
    ensures
        t * total(qs.take(k)) == total(qs) * total(floor_shares(qs, t).take(k)) + total(
            remainders(qs, t).take(k),
        ),
        total(remainders(qs, t).take(k)) <= count(k, with_remainder(remainders(qs, t))) * (total(
            qs,
        ) - 1),
    decreases k,
{
    let big = total(qs);
    let fs = floor_shares(qs, t);
    let rs = remainders(qs, t);
    if k == 0 {
        assert(qs.take(0) =~= Seq::<nat>::empty());
        assert(fs.take(0) =~= Seq::<nat>::empty());
        assert(rs.take(0) =~= Seq::<nat>::empty());
        assert(t * 0 == 0) by (nonlinear_arith);
        assert(big * 0 == 0) by (nonlinear_arith);
        assert(0 * (big - 1) == 0) by (nonlinear_arith);
    } else {
        let i = k - 1;
        lemma_shares_prefix(qs, t, i);
        lemma_total_take_step(qs, i);
        lemma_total_take_step(fs, i);
        lemma_total_take_step(rs, i);
        lemma_div_mod(t * qs[i], big);
        lemma_distribute(t as int, total(qs.take(i)) as int, qs[i] as int);
        lemma_distribute(big as int, total(fs.take(i)) as int, fs[i] as int);
        let c = count(i, with_remainder(rs));
        lemma_distribute(big - 1, c as int, 1);
        assert((big - 1) * c == c * (big - 1)) by (nonlinear_arith);
        assert((big - 1) * (c + 1) == (c + 1) * (big - 1)) by (nonlinear_arith);
        assert((big - 1) * 1 == big - 1) by (nonlinear_arith);
    }
}

/// The rounded-down shares leave fewer units unassigned than there are
/// makers with a positive remainder, and none if there is no such maker.
proof fn lemma_leftover(qs: Seq<nat>, t: nat)
    requires
        total(qs) > 0,
    ensures
        total(floor_shares(qs, t)) <= t,
        total(qs) * leftover(qs, t) == total(remainders(qs, t)),
        leftover(qs, t) <= count(qs.len() as int, with_remainder(remainders(qs, t))),
        leftover(qs, t) > 0 ==> leftover(qs, t) < count(
            qs.len() as int,
            with_remainder(remainders(qs, t)),
        ),
        leftover(qs, t) <= qs.len(),
{
    let n = qs.len() as int;
    let big = total(qs) as int;
    let fs = floor_shares(qs, t);
    let rs = remainders(qs, t);
    lemma_shares_prefix(qs, t, n);
    lemma_total_take_bounds(qs, n);
    lemma_total_take_bounds(fs, n);
    lemma_total_take_bounds(rs, n);
    let f = total(fs) as int;
    let r = total(rs) as int;
    let c = count(n, with_remainder(rs)) as int;
    lemma_count_bound(n, with_remainder(rs));
    assert(f <= t) by (nonlinear_arith)
        requires
            big > 0,
            r >= 0,
            t * big == big * f + r,
    ;
    let l = t - f;
    assert(big * l == r) by (nonlinear_arith)
        requires
            t * big == big * f + r,
            l == t - f,
    ;
    assert(l <= c && (l > 0 ==> l < c)) by (nonlinear_arith)
        requires
            big > 0,
            l >= 0,
            c >= 0,
            big * l == r,
            r <= c * (big - 1),
    ;
}

/// A maker that receives a leftover unit has a positive remainder.
proof fn lemma_bonus_needs_remainder(qs: Seq<nat>, t: nat, i: int)
    requires
        total(qs) > 0,
        0 <= i < qs.len(),
        rank(remainders(qs, t), i) < leftover(qs, t),
    ensures
        remainder(qs, t, i) > 0,
{
    let n = qs.len() as int;
    let rs = remainders(qs, t);
    lemma_leftover(qs, t);
    if rs[i] == 0 {
        // Every maker with a positive remainder outranks maker `i`.
        lemma_count_implies(n, with_remainder(rs), outranking(rs, i));
    }
}

/// A pro-rata share never exceeds what the maker holds.
proof fn lemma_prorata_share_bound(qs: Seq<nat>, t: nat, i: int)
    requires
        total(qs) > 0,
        t <= total(qs),
        0 <= i < qs.len(),
    ensures
        floor_share(qs, t, i) <= qs[i],
        prorata_share(qs, t, i) <= qs[i],
{
    let big = total(qs) as int;
    let q = qs[i] as int;
    let f = floor_share(qs, t, i) as int;
    let r = remainder(qs, t, i) as int;
    lemma_div_mod(t * qs[i], total(qs));
    assert(f <= q && (r > 0 ==> f < q)) by (nonlinear_arith)
        requires
            big > 0,
            0 <= t <= big,
            q >= 0,
            r >= 0,
            t * q == big * f + r,
    ;
    if rank(remainders(qs, t), i) < leftover(qs, t) {
        lemma_bonus_needs_remainder(qs, t, i);
    }
}

/// Over any prefix of the level, the pro-rata shares are the rounded-down
/// shares plus one unit for each maker ranked below the leftover.
proof fn lemma_prorata_prefix(qs: Seq<nat>, t: nat, k: int)
    requires
        0 <= k <= qs.len(),
    ensures
        total(prorata_allocation(qs, t).take(k)) == total(floor_shares(qs, t).take(k)) + count(
            k,
            ranked_within(remainders(qs, t), 0, leftover(qs, t) as int),
        ),
    decreases k,
{
    let a = prorata_allocation(qs, t);
    let fs = floor_shares(qs, t);
    if k == 0 {
        assert(a.take(0) =~= Seq::<nat>::empty());
        assert(fs.take(0) =~= Seq::<nat>::empty());
    } else {
        lemma_prorata_prefix(qs, t, k - 1);
        lemma_total_take_step(a, k - 1);
        lemma_total_take_step(fs, k - 1);
    }
}

/// Pro-rata allocation hands out exactly `t` when the level holds at least
/// `t`, and never more to a maker than the maker holds.
pub proof fn lemma_prorata_allocation_exact(qs: Seq<nat>, t: nat)
    requires
        total(qs) > 0,
        t <= total(qs),
    ensures
        prorata_allocation(qs, t).len() == qs.len(),
        total(prorata_allocation(qs, t)) == t,
        forall|i: int| 0 <= i < qs.len() ==> #[trigger] prorata_allocation(qs, t)[i] <= qs[i],
{
    let n = qs.len() as int;
    let a = prorata_allocation(qs, t);
    let fs = floor_shares(qs, t);
    let rs = remainders(qs, t);
    lemma_leftover(qs, t);
    lemma_prorata_prefix(qs, t, n);
    lemma_ranked_below(rs, leftover(qs, t) as int);
    lemma_total_take_bounds(a, n);
    lemma_total_take_bounds(fs, n);
    assert forall|i: int| 0 <= i < qs.len() implies #[trigger] a[i] <= qs[i] by {
        lemma_prorata_share_bound(qs, t, i);
    }
}


/// Proportionality. When `t` does not exceed the level's total `Q`, maker
/// `i` receives `floor(t * qs[i] / Q)`, and one unit more if it is among the
/// first in the ranking by descending remainder, older maker first among
/// equal remainders. As many makers receive the extra unit as the
/// rounded-down shares leave units unassigned, so the shares sum to `t`. No
/// maker receives more than it holds.
pub proof fn lemma_prorata_proportional(qs: Seq<nat>, t: nat)
    requires
        total(qs) > 0,
        t <= total(qs),
    ensures
        total(prorata_allocation(qs, t)) == t,
        total(floor_shares(qs, t)) + leftover(qs, t) == t,
        leftover(qs, t) <= qs.len(),
        count(
            qs.len() as int,
            ranked_within(remainders(qs, t), 0, leftover(qs, t) as int),
        ) == leftover(qs, t),
        forall|i: int|
            0 <= i < qs.len() ==> {
                let share = #[trigger] prorata_allocation(qs, t)[i];
                &&& share <= qs[i]
                &&& share == (t * qs[i]) / total(qs) + if receives_extra(qs, t, i) {
                    1nat
                } else {
                    0nat
                }
            },
        forall|i: int, j: int|
            #![trigger receives_extra(qs, t, i), receives_extra(qs, t, j)]
            0 <= i < qs.len() && 0 <= j < qs.len() && outranks(remainders(qs, t), i, j)
                && receives_extra(qs, t, j) ==> receives_extra(qs, t, i),
{
    let rs = remainders(qs, t);
    lemma_prorata_allocation_exact(qs, t);
    lemma_leftover(qs, t);
    lemma_ranked_below(rs, leftover(qs, t) as int);
    assert forall|i: int, j: int|
        #![trigger receives_extra(qs, t, i), receives_extra(qs, t, j)]
        0 <= i < qs.len() && 0 <= j < qs.len() && outranks(rs, i, j) && receives_extra(
            qs,
            t,
            j,
        ) implies receives_extra(qs, t, i) by {
        lemma_rank_strict(rs, i, j);
    }
}

/// Divides `t` among the makers of a level by price-time priority: the
/// oldest maker is served in full before the next one receives anything.
pub fn fifo_allocate(qs: &Vec<u64>, t: u64) -> (a: Vec<u64>)
    ensures
        nats(a@) == fifo_allocation(nats(qs@), t as nat),
{
    let ghost level = nats(qs@);
    let n: usize = qs.len();
    let mut a: Vec<u64> = Vec::new();
    let mut rest: u64 = t;
    let mut i: usize = 0;
    while i < n
        invariant
            i <= n,
            n == qs.len(),
            level == nats(qs@),
            a.len() == i,
            rest as int == if t <= total(level.take(i as int)) {
                0
            } else {
                t - total(level.take(i as int))
            },
            forall|j: int| 0 <= j < i ==> a[j] as nat == fifo_share(level, t as nat, j),
        decreases n - i,
    {
        let q: u64 = qs[i];
        let give: u64 = if rest >= q {
            q
        } else {
            rest
        };
        proof {
            lemma_total_take_step(level, i as int);
        }
        a.push(give);
        rest = rest - give;
        i += 1;
    }
    assert(nats(a@) =~= fifo_allocation(level, t as nat));
    a
}

/// Divides `t` among the makers of a level in proportion to what each
/// holds. Shares are rounded down; the units that rounding leaves over go,
/// one each, to the makers with the largest remainders, the older maker
/// first among equal remainders.
pub fn prorata_allocate(qs: &Vec<u64>, t: u64) -> (a: Vec<u64>)
    requires
        total(nats(qs@)) > 0,
        t <= total(nats(qs@)),
    ensures
        nats(a@) == prorata_allocation(nats(qs@), t as nat),
{
    let ghost level = nats(qs@);
    let ghost fs = floor_shares(level, t as nat);
    let ghost rs = remainders(level, t as nat);
    let n: usize = qs.len();
    let mut big: u128 = 0;
    let mut i: usize = 0;
    while i < n
        invariant
            i <= n,
            n == qs.len(),
            level == nats(qs@),
            big as nat == total(level.take(i as int)),
            big <= i * u64::MAX,
        decreases n - i,
    {
        proof {
            lemma_total_take_step(level, i as int);
        }
        big = big + qs[i] as u128;
        i += 1;
    }
    proof {
        lemma_total_take_bounds(level, n as int);
    }
    let mut floors: Vec<u64> = Vec::new();
    let mut rems: Vec<u128> = Vec::new();
    let mut given: u128 = 0;
    i = 0;
    while i < n
        invariant
            i <= n,
            n == qs.len(),
            level == nats(qs@),
            fs == floor_shares(level, t as nat),
            rs == remainders(level, t as nat),
            big as nat == total(level),
            big > 0,
            t <= big,
            floors.len() == i,
            rems.len() == i,
            forall|j: int| 0 <= j < i ==> floors[j] as nat == fs[j],
            forall|j: int| 0 <= j < i ==> rems[j] as nat == rs[j],
            given as nat == total(fs.take(i as int)),
            given <= i * u64::MAX,
        decreases n - i,
    {
        let q: u64 = qs[i];
        assert(t * q <= 0xFFFF_FFFF_FFFF_FFFF * 0xFFFF_FFFF_FFFF_FFFF) by (nonlinear_arith)
            requires
                0 <= t <= 0xFFFF_FFFF_FFFF_FFFF,
                0 <= q <= 0xFFFF_FFFF_FFFF_FFFF,
        ;
        let product: u128 = (t as u128) * (q as u128);
        let f: u128 = product / big;
        let r: u128 = product % big;
        proof {
            lemma_prorata_share_bound(level, t as nat, i as int);
            lemma_total_take_step(fs, i as int);
            assert(f as nat == fs[i as int]);
            assert(r as nat == rs[i as int]);
        }
        floors.push(f as u64);
        rems.push(r);
        given = given + f;
        i += 1;
    }
    proof {
        lemma_leftover(level, t as nat);
        lemma_total_take_bounds(fs, n as int);
    }
    let left: u128 = t as u128 - given;
    let mut a: Vec<u64> = Vec::new();
    i = 0;
    while i < n
        invariant
            i <= n,
            n == qs.len(),
            level == nats(qs@),
            fs == floor_shares(level, t as nat),
            rs == remainders(level, t as nat),
            total(level) > 0,
            t <= total(level),
            floors.len() == n,
            rems.len() == n,
            forall|j: int| 0 <= j < n ==> floors[j] as nat == fs[j],
            forall|j: int| 0 <= j < n ==> rems[j] as nat == rs[j],
            left as nat == leftover(level, t as nat),
            rs.len() == n,
            a.len() == i,
            forall|j: int| 0 <= j < i ==> a[j] as nat == prorata_share(level, t as nat, j),
        decreases n - i,
    {
        let mine: u128 = rems[i];
        let mut ahead: usize = 0;
        let mut j: usize = 0;
        while j < n
            invariant
                j <= n,
                i < n,
                rems.len() == n,
                rs.len() == n,
                mine == rems[i as int],
                forall|k: int| 0 <= k < n ==> rems[k] as nat == rs[k],
                ahead as nat == count(j as int, outranking(rs, i as int)),
                ahead <= j,
            decreases n - j,
        {
            let theirs: u128 = rems[j];
            if theirs > mine || (theirs == mine && j < i) {
                ahead += 1;
            }
            j += 1;
        }
        proof {
            lemma_prorata_share_bound(level, t as nat, i as int);
            assert(ahead as nat == rank(rs, i as int));
            assert(fs[i as int] == floor_share(level, t as nat, i as int));
        }
        let share: u64 = if (ahead as u128) < left {
            floors[i] + 1
        } else {
            floors[i]
        };
        a.push(share);
        i += 1;
    }
    assert(nats(a@) =~= prorata_allocation(level, t as nat));
    a
}

} // verus!
