//! The lexicographic order of suffixes, and the order that induced sorting
//! produces.
use vstd::prelude::*;
use crate::types::{S, L, type_of, types_of, is_lms_at};

verus! {

/// A text ending in the sentinel: its last symbol is 0 and every other symbol
/// is positive.
pub open spec fn valid_text(t: Seq<int>) -> bool {
    &&& t.len() >= 1
    &&& t[t.len() - 1] == 0
    &&& forall|k: int| 0 <= k < t.len() - 1 ==> #[trigger] t[k] > 0
}

/// The suffix of `t` starting at `i` is lexicographically smaller than the
/// one starting at `j` (positions range over `0..=t.len()`; the empty suffix
/// is the smallest).
pub open spec fn slt(t: Seq<int>, i: int, j: int) -> bool
    decreases t.len() - i,
{
    if i < 0 || j < 0 || i > t.len() || j > t.len() {
        false
    } else if i == t.len() {
        j < t.len()
    } else if j == t.len() {
        false
    } else if t[i] != t[j] {
        t[i] < t[j]
    } else {
        slt(t, i + 1, j + 1)
    }
}

pub proof fn lemma_slt_irrefl(t: Seq<int>, i: int)
    ensures
        !slt(t, i, i),
    decreases t.len() - i,
{
    if 0 <= i < t.len() {
        lemma_slt_irrefl(t, i + 1);
    }
}

pub proof fn lemma_slt_trans(t: Seq<int>, i: int, j: int, k: int)
    requires
        slt(t, i, j),
        slt(t, j, k),
    ensures
        slt(t, i, k),
    decreases t.len() - i,
{
    if i < t.len() && j < t.len() && k < t.len() && t[i] == t[j] && t[j] == t[k] {
        lemma_slt_trans(t, i + 1, j + 1, k + 1);
    }
}

pub proof fn lemma_slt_asym(t: Seq<int>, i: int, j: int)
    requires
        slt(t, i, j),
    ensures
        !slt(t, j, i),
{
    if slt(t, j, i) {
        lemma_slt_trans(t, i, j, i);
        lemma_slt_irrefl(t, i);
    }
}

/// In a valid text, equal symbols at distinct positions are followed by
/// further symbols.
pub proof fn lemma_equal_not_last(t: Seq<int>, i: int, j: int)
    requires
        valid_text(t),
        0 <= i < t.len(),
        0 <= j < t.len(),
        i != j,
        t[i] == t[j],
    ensures
        i + 1 < t.len(),
        j + 1 < t.len(),
{
    if i == t.len() - 1 {
        assert(t[j] > 0);
    }
    if j == t.len() - 1 {
        assert(t[i] > 0);
    }
}

/// The last position is S; an L position is followed by a symbol no larger
/// than its own, and an S position by one no smaller.
pub proof fn lemma_type_facts(t: Seq<int>, i: int)
    requires
        0 <= i < t.len(),
    ensures
        type_of(t, i) == S || type_of(t, i) == L,
        i == t.len() - 1 ==> type_of(t, i) == S,
        i < t.len() - 1 && type_of(t, i) == L ==> t[i] >= t[i + 1],
        i < t.len() - 1 && type_of(t, i) == S ==> t[i] <= t[i + 1],
        i < t.len() - 1 && t[i] == t[i + 1] ==> type_of(t, i) == type_of(t, i + 1),
        i < t.len() - 1 && t[i] < t[i + 1] ==> type_of(t, i) == S,
        i < t.len() - 1 && t[i] > t[i + 1] ==> type_of(t, i) == L,
    decreases t.len() - i,
{
    if i < t.len() - 1 && t[i] == t[i + 1] {
        lemma_type_facts(t, i + 1);
    }
}

/// Among suffixes that start with the same symbol, an L suffix is smaller than
/// an S suffix.
pub proof fn lemma_l_before_s(t: Seq<int>, a: int, c: int)
    requires
        valid_text(t),
        0 <= a < t.len(),
        0 <= c < t.len(),
        t[a] == t[c],
        type_of(t, a) == L,
        type_of(t, c) == S,
    ensures
        slt(t, a, c),
    decreases t.len() - a,
{
    lemma_type_facts(t, a);
    lemma_type_facts(t, c);
    if a == c {
        assert(false);
    }
    lemma_equal_not_last(t, a, c);
    lemma_type_facts(t, a + 1);
    lemma_type_facts(t, c + 1);
    assert(slt(t, a, c) == slt(t, a + 1, c + 1));
    if t[a + 1] == t[c + 1] {
        if t[a] == t[a + 1] && t[c] == t[c + 1] {
            lemma_l_before_s(t, a + 1, c + 1);
        }
    }
}

} // verus!

verus! {

/// Every entry of the type map is S or L.
pub open spec fn binary_types(ty: Seq<u8>) -> bool {
    forall|x: int| 0 <= x < ty.len() ==> #[trigger] ty[x] == S || ty[x] == L
}

pub proof fn lemma_types_of_binary(t: Seq<int>)
    ensures
        binary_types(types_of(t)),
        types_of(t).len() == t.len(),
{
    assert forall|x: int| 0 <= x < types_of(t).len() implies #[trigger] types_of(t)[x] == S || types_of(t)[x]
        == L by {
        lemma_type_facts(t, x);
    }
}

/// The order in which induced sorting places positions. Two positions are
/// compared by symbol, then by type (L before S), then by their successors;
/// when both walks reach a leftmost S position right after an L one (`fl`),
/// the seed ranks `sigma` decide.
pub open spec fn ford(t: Seq<int>, ty: Seq<u8>, sigma: spec_fn(int) -> int, i: int, j: int, fl: bool) -> bool
    decreases t.len() - i,
{
    if i < 0 || j < 0 || i >= t.len() || j >= t.len() {
        false
    } else if t[i] != t[j] {
        t[i] < t[j]
    } else if ty[i] != ty[j] {
        ty[i] == L
    } else if ty[i] == S && fl {
        sigma(i) < sigma(j)
    } else {
        ford(t, ty, sigma, i + 1, j + 1, ty[i] == L)
    }
}

/// The walks of `ford` from `i` and `j` end at the seed ranks: they see the
/// same symbols and types until both reach a leftmost S position.
pub open spec fn reach(t: Seq<int>, ty: Seq<u8>, i: int, j: int, fl: bool) -> bool
    decreases t.len() - i,
{
    if i < 0 || j < 0 || i >= t.len() || j >= t.len() {
        false
    } else if t[i] != t[j] {
        false
    } else if ty[i] != ty[j] {
        false
    } else if ty[i] == S && fl {
        true
    } else {
        reach(t, ty, i + 1, j + 1, ty[i] == L)
    }
}

/// The seed ranks tell apart any two distinct leftmost S positions.
pub open spec fn sigma_injective(ty: Seq<u8>, sigma: spec_fn(int) -> int) -> bool {
    forall|p: int, q: int|
        is_lms_at(ty, p) && is_lms_at(ty, q) && p != q ==> #[trigger] sigma(p) != #[trigger] sigma(q)
}

/// The flag of a walk is set only right after two L positions.
pub open spec fn flag_ok(ty: Seq<u8>, i: int, j: int, fl: bool) -> bool {
    fl ==> (1 <= i && 1 <= j && i - 1 < ty.len() && j - 1 < ty.len() && ty[i - 1] == L && ty[j - 1] == L)
}

pub proof fn lemma_ford_irrefl(t: Seq<int>, ty: Seq<u8>, sigma: spec_fn(int) -> int, i: int, fl: bool)
    ensures
        !ford(t, ty, sigma, i, i, fl),
    decreases t.len() - i,
{
    if 0 <= i < t.len() {
        lemma_ford_irrefl(t, ty, sigma, i + 1, ty[i] == L);
    }
}

pub proof fn lemma_ford_trans(
    t: Seq<int>,
    ty: Seq<u8>,
    sigma: spec_fn(int) -> int,
    i: int,
    j: int,
    k: int,
    fl: bool,
)
    requires
        binary_types(ty),
        ty.len() == t.len(),
        ford(t, ty, sigma, i, j, fl),
        ford(t, ty, sigma, j, k, fl),
    ensures
        ford(t, ty, sigma, i, k, fl),
    decreases t.len() - i,
{
    if t[i] == t[j] && t[j] == t[k] && ty[i] == ty[j] && ty[j] == ty[k] && !(ty[i] == S && fl) {
        lemma_ford_trans(t, ty, sigma, i + 1, j + 1, k + 1, ty[i] == L);
    }
}

pub proof fn lemma_ford_asym(t: Seq<int>, ty: Seq<u8>, sigma: spec_fn(int) -> int, i: int, j: int, fl: bool)
    requires
        binary_types(ty),
        ty.len() == t.len(),
        ford(t, ty, sigma, i, j, fl),
    ensures
        !ford(t, ty, sigma, j, i, fl),
{
    if ford(t, ty, sigma, j, i, fl) {
        lemma_ford_trans(t, ty, sigma, i, j, i, fl);
        lemma_ford_irrefl(t, ty, sigma, i, fl);
    }
}

pub proof fn lemma_ford_total(t: Seq<int>, sigma: spec_fn(int) -> int, i: int, j: int, fl: bool)
    requires
        valid_text(t),
        sigma_injective(types_of(t), sigma),
        0 <= i < t.len(),
        0 <= j < t.len(),
        i != j,
        flag_ok(types_of(t), i, j, fl),
    ensures
        ford(t, types_of(t), sigma, i, j, fl) || ford(t, types_of(t), sigma, j, i, fl),
    decreases t.len() - i,
{
    let ty = types_of(t);
    lemma_type_facts(t, i);
    lemma_type_facts(t, j);
    if t[i] == t[j] && ty[i] == ty[j] {
        if ty[i] == S && fl {
            assert(is_lms_at(ty, i) && is_lms_at(ty, j));
            assert(sigma(i) != sigma(j));
        } else {
            lemma_equal_not_last(t, i, j);
            lemma_ford_total(t, sigma, i + 1, j + 1, ty[i] == L);
        }
    }
}

/// Where the walks do not reach the seed ranks, `ford` is the suffix order.
pub proof fn lemma_ford_slt_unreached(t: Seq<int>, sigma: spec_fn(int) -> int, i: int, j: int, fl: bool)
    requires
        valid_text(t),
        0 <= i < t.len(),
        0 <= j < t.len(),
        i != j,
        !reach(t, types_of(t), i, j, fl),
    ensures
        ford(t, types_of(t), sigma, i, j, fl) == slt(t, i, j),
    decreases t.len() - i,
{
    let ty = types_of(t);
    if t[i] == t[j] {
        if ty[i] != ty[j] {
            lemma_type_facts(t, i);
            lemma_type_facts(t, j);
            if ty[i] == L {
                lemma_l_before_s(t, i, j);
            } else {
                lemma_l_before_s(t, j, i);
                lemma_slt_asym(t, j, i);
            }
        } else {
            lemma_equal_not_last(t, i, j);
            lemma_ford_slt_unreached(t, sigma, i + 1, j + 1, ty[i] == L);
        }
    }
}

/// Seed ranks that order leftmost S positions by their suffixes.
pub open spec fn sigma_sorted(t: Seq<int>, sigma: spec_fn(int) -> int) -> bool {
    forall|p: int, q: int|
        is_lms_at(types_of(t), p) && is_lms_at(types_of(t), q) && p != q && t[p] == t[q] ==> (#[trigger] sigma(p)
            < #[trigger] sigma(q) <==> slt(t, p, q))
}

/// With seed ranks that follow the suffix order, `ford` is the suffix order.
pub proof fn lemma_ford_slt_sorted(t: Seq<int>, sigma: spec_fn(int) -> int, i: int, j: int, fl: bool)
    requires
        valid_text(t),
        sigma_sorted(t, sigma),
        0 <= i < t.len(),
        0 <= j < t.len(),
        i != j,
        flag_ok(types_of(t), i, j, fl),
    ensures
        ford(t, types_of(t), sigma, i, j, fl) == slt(t, i, j),
    decreases t.len() - i,
{
    let ty = types_of(t);
    if t[i] == t[j] {
        if ty[i] != ty[j] {
            lemma_type_facts(t, i);
            lemma_type_facts(t, j);
            if ty[i] == L {
                lemma_l_before_s(t, i, j);
            } else {
                lemma_l_before_s(t, j, i);
                lemma_slt_asym(t, j, i);
            }
        } else if ty[i] == S && fl {
            assert(is_lms_at(ty, i) && is_lms_at(ty, j));
            assert(sigma(i) < sigma(j) <==> slt(t, i, j));
        } else {
            lemma_equal_not_last(t, i, j);
            lemma_ford_slt_sorted(t, sigma, i + 1, j + 1, ty[i] == L);
        }
    }
}

} // verus!
