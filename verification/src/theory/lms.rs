//! LMS substrings: how their comparison relates to the induced order and to
//! the order of suffixes.
use vstd::prelude::*;
use crate::types::{S, L, types_of, is_lms_at};
use crate::theory::order::{valid_text, ford, reach, slt, lemma_type_facts, lemma_types_of_binary};
use crate::naming::{lms_tail_equal, lms_equal};

verus! {

/// A position between two others in the induced order whose walks reach the
/// seed ranks together reaches them together with both.
pub proof fn lemma_reach_sandwich(
    t: Seq<int>,
    sigma: spec_fn(int) -> int,
    p: int,
    r: int,
    q: int,
    fl: bool,
)
    requires
        valid_text(t),
        ford(t, types_of(t), sigma, p, r, fl),
        ford(t, types_of(t), sigma, r, q, fl),
        reach(t, types_of(t), p, q, fl),
    ensures
        reach(t, types_of(t), p, r, fl),
        reach(t, types_of(t), r, q, fl),
    decreases t.len() - p,
{
    let ty = types_of(t);
    lemma_type_facts(t, p);
    lemma_type_facts(t, q);
    lemma_type_facts(t, r);
    if !(ty[p] == S && fl) {
        lemma_reach_sandwich(t, sigma, p + 1, r + 1, q + 1, ty[p] == L);
    }
}

/// Walks that reach the seed ranks together see equal LMS substrings.
pub proof fn lemma_reach_tail_equal(t: Seq<int>, a: int, b: int, fl: bool)
    requires
        valid_text(t),
        1 <= a,
        1 <= b,
        reach(t, types_of(t), a, b, fl),
        a - 1 < t.len(),
        b - 1 < t.len(),
        fl == (types_of(t)[a - 1] == L),
        fl == (types_of(t)[b - 1] == L),
    ensures
        lms_tail_equal(t, types_of(t), a, b),
    decreases t.len() - a,
{
    let ty = types_of(t);
    lemma_types_of_binary(t);
    if !(ty[a] == S && fl) {
        lemma_reach_tail_equal(t, a + 1, b + 1, ty[a] == L);
    }
}

/// Leftmost S positions whose walks reach the seed ranks together have equal
/// LMS substrings.
pub proof fn lemma_reach_lms_equal(t: Seq<int>, p: int, q: int)
    requires
        valid_text(t),
        is_lms_at(types_of(t), p),
        is_lms_at(types_of(t), q),
        reach(t, types_of(t), p, q, false),
    ensures
        lms_equal(t, types_of(t), p, q),
{
    let ty = types_of(t);
    lemma_types_of_binary(t);
    lemma_reach_tail_equal(t, p + 1, q + 1, false);
}

/// Comparing LMS substrings is transitive, for walks that start inside the
/// text.
pub proof fn lemma_tail_equal_trans(t: Seq<int>, a: int, b: int, c: int)
    requires
        valid_text(t),
        t.len() >= 2,
        1 <= a <= t.len() - 1,
        1 <= b <= t.len() - 1,
        1 <= c <= t.len() - 1,
        lms_tail_equal(t, types_of(t), a, b),
        lms_tail_equal(t, types_of(t), b, c),
    ensures
        lms_tail_equal(t, types_of(t), a, c),
        lms_tail_equal(t, types_of(t), b, a),
    decreases t.len() - a,
{
    let ty = types_of(t);
    let n = t.len() as int;
    lemma_types_of_binary(t);
    lemma_type_facts(t, n - 2);
    assert(is_lms_at(ty, n - 1));
    if !is_lms_at(ty, a) && !is_lms_at(ty, b) && !is_lms_at(ty, c) {
        lemma_tail_equal_trans(t, a + 1, b + 1, c + 1);
    }
}

/// Equal LMS substrings form an equivalence among leftmost S positions.
pub proof fn lemma_lms_equal_equiv(t: Seq<int>, p: int, q: int, r: int)
    requires
        valid_text(t),
        is_lms_at(types_of(t), p),
        is_lms_at(types_of(t), q),
        is_lms_at(types_of(t), r),
    ensures
        lms_equal(t, types_of(t), p, p),
        lms_equal(t, types_of(t), p, q) ==> lms_equal(t, types_of(t), q, p),
        lms_equal(t, types_of(t), p, q) && lms_equal(t, types_of(t), q, r) ==> lms_equal(t, types_of(t), p, r),
{
    let ty = types_of(t);
    let n = t.len() as int;
    lemma_types_of_binary(t);
    lemma_tail_equal_refl(t, p + 1);
    lemma_tail_equal_refl(t, q + 1);
    if p < n - 1 {
        assert(t[p] > 0);
    }
    if q < n - 1 {
        assert(t[q] > 0);
    }
    if r < n - 1 {
        assert(t[r] > 0);
    }
    if p < n - 1 && q < n - 1 && lms_equal(t, ty, p, q) {
        lemma_tail_equal_trans(t, p + 1, q + 1, q + 1);
    }
    if p < n - 1 && q < n - 1 && r < n - 1 && lms_equal(t, ty, p, q) && lms_equal(t, ty, q, r) {
        lemma_tail_equal_trans(t, p + 1, q + 1, r + 1);
    }
}

pub proof fn lemma_tail_equal_refl(t: Seq<int>, a: int)
    ensures
        lms_tail_equal(t, types_of(t), a, a),
    decreases t.len() - a,
{
    if 0 <= a < t.len() && !is_lms_at(types_of(t), a) {
        lemma_tail_equal_refl(t, a + 1);
    }
}

} // verus!

verus! {

pub proof fn lemma_reach_symm(t: Seq<int>, a: int, b: int, fl: bool)
    requires
        reach(t, types_of(t), a, b, fl),
    ensures
        reach(t, types_of(t), b, a, fl),
    decreases t.len() - a,
{
    let ty = types_of(t);
    if !(ty[a] == S && fl) {
        lemma_reach_symm(t, a + 1, b + 1, ty[a] == L);
    }
}

/// The first leftmost S position at or after `x` (or `x` itself past the
/// end).
pub open spec fn next_lms(ty: Seq<u8>, x: int) -> int
    decreases ty.len() - x,
{
    if x < 0 || x >= ty.len() || is_lms_at(ty, x) {
        x
    } else {
        next_lms(ty, x + 1)
    }
}

/// Walks that see equal LMS substrings compare like the suffixes at the next
/// leftmost S positions.
pub proof fn lemma_tail_equal_slt(t: Seq<int>, a: int, b: int)
    requires
        valid_text(t),
        t.len() >= 2,
        1 <= a <= t.len() - 1,
        1 <= b <= t.len() - 1,
        a != b,
        lms_tail_equal(t, types_of(t), a, b),
    ensures
        slt(t, a, b) == slt(t, next_lms(types_of(t), a), next_lms(types_of(t), b)),
        next_lms(types_of(t), a) - a == next_lms(types_of(t), b) - b,
    decreases t.len() - a,
{
    let ty = types_of(t);
    let n = t.len() as int;
    lemma_types_of_binary(t);
    lemma_type_facts(t, n - 2);
    assert(is_lms_at(ty, n - 1));
    if !is_lms_at(ty, a) {
        lemma_tail_equal_slt(t, a + 1, b + 1);
    }
}

} // verus!
