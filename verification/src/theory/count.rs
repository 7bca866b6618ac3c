//! Counting positions that satisfy a predicate.
use vstd::prelude::*;

verus! {

/// The number of `k` in `[0, n)` with `p(k)`.
pub open spec fn count(n: int, p: spec_fn(int) -> bool) -> nat
    decreases n,
{
    if n <= 0 {
        0
    } else {
        count(n - 1, p) + if p(n - 1) { 1nat } else { 0nat }
    }
}

pub proof fn lemma_count_bound(n: int, p: spec_fn(int) -> bool)
    requires
        n >= 0,
    ensures
        count(n, p) <= n,
    decreases n,
{
    if n > 0 {
        lemma_count_bound(n - 1, p);
    }
}

/// Counting a weaker predicate gives at least as much.
pub proof fn lemma_count_mono(n: int, p: spec_fn(int) -> bool, q: spec_fn(int) -> bool)
    requires
        forall|k: int| 0 <= k < n && #[trigger] p(k) ==> q(k),
    ensures
        count(n, p) <= count(n, q),
    decreases n,
{
    if n > 0 {
        lemma_count_mono(n - 1, p, q);
    }
}

/// Counting a weaker predicate that holds somewhere the stronger does not
/// gives strictly more.
pub proof fn lemma_count_strict(n: int, p: spec_fn(int) -> bool, q: spec_fn(int) -> bool, w: int)
    requires
        forall|k: int| 0 <= k < n && #[trigger] p(k) ==> q(k),
        0 <= w < n,
        q(w),
        !p(w),
    ensures
        count(n, p) < count(n, q),
    decreases n,
{
    if w == n - 1 {
        lemma_count_mono(n - 1, p, q);
    } else {
        lemma_count_strict(n - 1, p, q, w);
    }
}

/// Predicates that agree on `[0, n)` have the same count.
pub proof fn lemma_count_ext(n: int, p: spec_fn(int) -> bool, q: spec_fn(int) -> bool)
    requires
        forall|k: int| 0 <= k < n ==> #[trigger] p(k) == q(k),
    ensures
        count(n, p) == count(n, q),
    decreases n,
{
    if n > 0 {
        lemma_count_ext(n - 1, p, q);
    }
}

/// Splitting a predicate by another one splits its count.
pub proof fn lemma_count_split(n: int, p: spec_fn(int) -> bool, q: spec_fn(int) -> bool)
    ensures
        count(n, p) == count(n, |k: int| p(k) && q(k)) + count(n, |k: int| p(k) && !q(k)),
    decreases n,
{
    if n > 0 {
        lemma_count_split(n - 1, p, q);
    }
}

/// A predicate that holds nowhere in `[0, n)` counts zero.
pub proof fn lemma_count_none(n: int, p: spec_fn(int) -> bool)
    requires
        forall|k: int| 0 <= k < n ==> !#[trigger] p(k),
    ensures
        count(n, p) == 0,
    decreases n,
{
    if n > 0 {
        lemma_count_none(n - 1, p);
    }
}

} // verus!

verus! {

/// A predicate and its negation split `[0, n)`.
pub proof fn lemma_count_complement(n: int, p: spec_fn(int) -> bool)
    requires
        n >= 0,
    ensures
        count(n, p) + count(n, |k: int| !p(k)) == n,
    decreases n,
{
    if n > 0 {
        lemma_count_complement(n - 1, p);
    }
}

/// Adding one point `x` to a predicate adds one to its count.
pub proof fn lemma_count_add_point(n: int, p: spec_fn(int) -> bool, q: spec_fn(int) -> bool, x: int)
    requires
        0 <= x < n,
        !q(x),
        forall|k: int| 0 <= k < n ==> #[trigger] p(k) == (q(k) || k == x),
    ensures
        count(n, p) == count(n, q) + 1,
    decreases n,
{
    if x < n - 1 {
        lemma_count_add_point(n - 1, p, q, x);
    } else {
        lemma_count_ext(n - 1, p, q);
    }
}

/// A predicate that fails somewhere in `[0, n)` counts less than `n`.
pub proof fn lemma_count_lt(n: int, p: spec_fn(int) -> bool, w: int)
    requires
        0 <= w < n,
        !p(w),
    ensures
        count(n, p) < n,
{
    lemma_count_complement(n, p);
    lemma_count_add_point(n, |k: int| !p(k), |k: int| !p(k) && k != w, w);
}

/// A predicate that holds everywhere in `[0, n)` counts `n`.
pub proof fn lemma_count_all(n: int, p: spec_fn(int) -> bool)
    requires
        n >= 0,
        forall|k: int| 0 <= k < n ==> #[trigger] p(k),
    ensures
        count(n, p) == n,
{
    lemma_count_complement(n, p);
    lemma_count_none(n, |k: int| !p(k));
}

} // verus!
