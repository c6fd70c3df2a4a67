//! Counting the indices at which a predicate holds.

use vstd::prelude::*;

verus! {

/// The number of indices below `n` at which `p` holds.
pub open spec fn count(n: int, p: spec_fn(int) -> bool) -> nat
    decreases n,
{
    if n <= 0 {
        0
    } else {
        count(n - 1, p) + if p(n - 1) {
            1nat
        } else {
            0nat
        }
    }
}

/// No more than `n` indices lie below `n`.
pub proof fn lemma_count_bound(n: int, p: spec_fn(int) -> bool)
    requires
        0 <= n,
    ensures
        count(n, p) <= n,
    decreases n,
{
    if n > 0 {
        lemma_count_bound(n - 1, p);
    }
}

/// A predicate that holds everywhere below `n` is counted `n` times.
pub proof fn lemma_count_all(n: int, p: spec_fn(int) -> bool)
    requires
        0 <= n,
        forall|i: int| 0 <= i < n ==> #[trigger] p(i),
    ensures
        count(n, p) == n,
    decreases n,
{
    if n > 0 {
        lemma_count_all(n - 1, p);
    }
}

/// A predicate that holds nowhere below `n` is counted zero times.
pub proof fn lemma_count_none(n: int, p: spec_fn(int) -> bool)
    requires
        forall|i: int| 0 <= i < n ==> !#[trigger] p(i),
    ensures
        count(n, p) == 0,
    decreases n,
{
    if n > 0 {
        lemma_count_none(n - 1, p);
    }
}

/// A predicate that holds wherever another does is counted at least as often,
/// and more often if it holds somewhere the other does not.
pub proof fn lemma_count_implies(n: int, p: spec_fn(int) -> bool, q: spec_fn(int) -> bool)
    requires
        forall|i: int| 0 <= i < n && #[trigger] p(i) ==> q(i),
    ensures
        count(n, p) <= count(n, q),
        (exists|m: int| 0 <= m < n && #[trigger] q(m) && !p(m)) ==> count(n, p) < count(n, q),
    decreases n,
{
    if n > 0 {
        lemma_count_implies(n - 1, p, q);
        if exists|m: int| 0 <= m < n && #[trigger] q(m) && !p(m) {
            let m = choose|m: int| 0 <= m < n && #[trigger] q(m) && !p(m);
            if m < n - 1 {
                assert(0 <= m < n - 1 && q(m) && !p(m));
            }
        }
    }
}

/// The count of a disjoint union is the sum of the counts.
pub proof fn lemma_count_split(
    n: int,
    r: spec_fn(int) -> bool,
    p: spec_fn(int) -> bool,
    q: spec_fn(int) -> bool,
)
    requires
        forall|i: int| 0 <= i < n ==> (#[trigger] r(i) <==> p(i) || q(i)),
        forall|i: int| 0 <= i < n ==> !(#[trigger] p(i) && q(i)),
    ensures
        count(n, r) == count(n, p) + count(n, q),
    decreases n,
{
    if n > 0 {
        lemma_count_split(n - 1, r, p, q);
    }
}

/// A predicate that holds at one index at most is counted once at most.
pub proof fn lemma_count_unique(n: int, p: spec_fn(int) -> bool)
    requires
        forall|i: int, j: int|
            0 <= i < n && 0 <= j < n && #[trigger] p(i) && #[trigger] p(j) ==> i == j,
    ensures
        count(n, p) <= 1,
    decreases n,
{
    if n > 0 {
        if p(n - 1) {
            assert forall|i: int| 0 <= i < n - 1 implies !#[trigger] p(i) by {
                if p(i) {
                    assert(i == n - 1);
                }
            }
            lemma_count_none(n - 1, p);
        } else {
            lemma_count_unique(n - 1, p);
        }
    }
}

/// A predicate that, where it holds, holds at every smaller index too, holds
/// exactly at the indices below its count.
pub proof fn lemma_count_prefix(n: int, p: spec_fn(int) -> bool)
    requires
        0 <= n,
        forall|i: int, j: int| 0 <= i < j < n && #[trigger] p(j) ==> #[trigger] p(i),
    ensures
        count(n, p) <= n,
        forall|i: int| 0 <= i < n ==> (#[trigger] p(i) <==> i < count(n, p)),
    decreases n,
{
    if n > 0 {
        lemma_count_prefix(n - 1, p);
        if p(n - 1) {
            assert forall|i: int| 0 <= i < n - 1 implies #[trigger] p(i) by {}
            lemma_count_all(n - 1, p);
        }
    }
}

/// Counting from `l` on: where `q` holds at `i` exactly if `p` holds at
/// `l + i`, and `p` holds everywhere below `l`, the count of `p` is `l` more
/// than the count of `q`.
pub proof fn lemma_count_behind(n: int, l: int, p: spec_fn(int) -> bool, q: spec_fn(int) -> bool)
    requires
        0 <= l <= n,
        forall|i: int| 0 <= i < l ==> #[trigger] p(i),
        forall|i: int| 0 <= i < n - l ==> (#[trigger] q(i) <==> p(l + i)),
    ensures
        count(n, p) == l + count(n - l, q),
    decreases n - l,
{
    if n == l {
        lemma_count_all(l, p);
    } else {
        lemma_count_behind(n - 1, l, p, q);
        assert(q(n - 1 - l) <==> p(l + (n - 1 - l)));
    }
}

} // verus!
