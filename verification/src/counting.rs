//! Counting the indices below a bound at which a predicate holds.
//!
//! Fan-in counters, branch-set measures and the cost evaluator's progress
//! measure are all stated with `count_below`.

use vstd::prelude::*;

verus! {

/// Number of indices `i` with `0 <= i < k` at which `p` holds.
pub open spec fn count_below(k: int, p: spec_fn(int) -> bool) -> nat
    decreases k,
{
    if k <= 0 {
        0
    } else {
        count_below(k - 1, p) + if p(k - 1) {
            1nat
        } else {
            0nat
        }
    }
}

/// A count never exceeds the number of indices considered.
pub proof fn lemma_count_bound(k: int, p: spec_fn(int) -> bool)
    ensures
        count_below(k, p) <= if k < 0 {
            0
        } else {
            k
        },
    decreases k,
{
    if k > 0 {
        lemma_count_bound(k - 1, p);
    }
}

/// Predicates that agree below `k` have the same count.
pub proof fn lemma_count_agree(k: int, p: spec_fn(int) -> bool, q: spec_fn(int) -> bool)
    requires
        forall|i: int| 0 <= i < k ==> #[trigger] p(i) == q(i),
    ensures
        count_below(k, p) == count_below(k, q),
    decreases k,
{
    if k > 0 {
        lemma_count_agree(k - 1, p, q);
    }
}

/// A pointwise weaker predicate counts at least as much.
pub proof fn lemma_count_le(k: int, p: spec_fn(int) -> bool, q: spec_fn(int) -> bool)
    requires
        forall|i: int| 0 <= i < k && #[trigger] p(i) ==> q(i),
    ensures
        count_below(k, p) <= count_below(k, q),
    decreases k,
{
    if k > 0 {
        lemma_count_le(k - 1, p, q);
    }
}

/// Turning the predicate on at exactly one index raises the count by one.
pub proof fn lemma_count_flip(k: int, p: spec_fn(int) -> bool, q: spec_fn(int) -> bool, x: int)
    requires
        0 <= x < k,
        !p(x),
        q(x),
        forall|i: int| 0 <= i < k && i != x ==> #[trigger] p(i) == q(i),
    ensures
        count_below(k, q) == count_below(k, p) + 1,
    decreases k,
{
    if k - 1 == x {
        lemma_count_agree(k - 1, p, q);
    } else {
        lemma_count_flip(k - 1, p, q, x);
    }
}

/// If `p` implies `q` and both count the same, then `q` implies `p` below `k`.
pub proof fn lemma_count_full(k: int, p: spec_fn(int) -> bool, q: spec_fn(int) -> bool, x: int)
    requires
        forall|i: int| 0 <= i < k && #[trigger] p(i) ==> q(i),
        count_below(k, p) == count_below(k, q),
        0 <= x < k,
        q(x),
    ensures
        p(x),
    decreases k,
{
    lemma_count_le(k - 1, p, q);
    if k - 1 != x {
        lemma_count_full(k - 1, p, q, x);
    }
}

/// A predicate that holds nowhere below `k` counts zero.
pub proof fn lemma_count_none(k: int, p: spec_fn(int) -> bool)
    requires
        forall|i: int| 0 <= i < k ==> !#[trigger] p(i),
    ensures
        count_below(k, p) == 0,
    decreases k,
{
    if k > 0 {
        lemma_count_none(k - 1, p);
    }
}

/// An index at which `p` holds makes the count positive.
pub proof fn lemma_count_positive(k: int, p: spec_fn(int) -> bool, x: int)
    requires
        0 <= x < k,
        p(x),
    ensures
        count_below(k, p) >= 1,
    decreases k,
{
    if k - 1 != x {
        lemma_count_positive(k - 1, p, x);
    }
}

/// An index at which `p` fails keeps the count below the bound.
pub proof fn lemma_count_gap(k: int, p: spec_fn(int) -> bool, x: int)
    requires
        0 <= x < k,
        !p(x),
    ensures
        count_below(k, p) < k,
    decreases k,
{
    if k - 1 != x {
        lemma_count_gap(k - 1, p, x);
    } else {
        lemma_count_bound(k - 1, p);
    }
}

/// A predicate that holds everywhere below `k` counts `k`.
pub proof fn lemma_count_every(k: int, p: spec_fn(int) -> bool)
    requires
        0 <= k,
        forall|i: int| 0 <= i < k ==> #[trigger] p(i),
    ensures
        count_below(k, p) == k,
    decreases k,
{
    if k > 0 {
        lemma_count_every(k - 1, p);
    }
}

/// A predicate that implies another and fails at an index where the other
/// holds counts less.
pub proof fn lemma_count_less(k: int, p: spec_fn(int) -> bool, q: spec_fn(int) -> bool, x: int)
    requires
        forall|i: int| 0 <= i < k && #[trigger] p(i) ==> q(i),
        0 <= x < k,
        q(x),
        !p(x),
    ensures
        count_below(k, p) < count_below(k, q),
    decreases k,
{
    if k - 1 == x {
        lemma_count_le(k - 1, p, q);
    } else {
        lemma_count_less(k - 1, p, q, x);
    }
}

} // verus!
