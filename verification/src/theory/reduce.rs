//! The reduced text: the names of the LMS substrings in text order. Its
//! suffixes are ordered like the suffixes at the leftmost S positions.
use vstd::prelude::*;
use crate::types::{types_of, is_lms_at, lms_upto, lms_of};
use crate::theory::order::{valid_text, slt, lemma_slt_asym};
use crate::naming::{lms_equal, compact};
use crate::theory::lms::lemma_tail_equal_slt;
use crate::theory::lmslist::lemma_lms_of;

verus! {

/// Collecting the named positions gives the leftmost S positions in
/// increasing order, with their names.
pub proof fn lemma_compact(t: Seq<int>, names: Seq<usize>, k: int)
    requires
        names.len() == t.len(),
        t.len() <= usize::MAX,
        0 <= k <= t.len(),
        forall|x: int| 0 <= x < t.len() ==> (#[trigger] names[x] == usize::MAX <==> !is_lms_at(types_of(t), x)),
    ensures
        compact(names, k).1 == lms_upto(types_of(t), k),
        compact(names, k).0.len() == compact(names, k).1.len(),
        forall|a: int|
            0 <= a < compact(names, k).0.len() ==> #[trigger] compact(names, k).0[a] == names[compact(
                names,
                k,
            ).1[a] as int],
    decreases k,
{
    if k > 0 {
        lemma_compact(t, names, k - 1);
    }
}

/// Suffixes of the reduced text compare like the suffixes at the
/// corresponding leftmost S positions.
pub proof fn lemma_reduced_order(t: Seq<int>, names: Seq<usize>, u: Seq<int>, a: int, b: int)
    requires
        valid_text(t),
        t.len() >= 2,
        t.len() <= usize::MAX,
        u.len() == lms_of(types_of(t)).len(),
        forall|i: int| 0 <= i < u.len() ==> #[trigger] u[i] == names[lms_of(types_of(t))[i] as int],
        forall|p: int, q: int|
            is_lms_at(types_of(t), p) && is_lms_at(types_of(t), q) && #[trigger] names[p] < #[trigger] names[q]
                ==> slt(t, p, q),
        forall|p: int, q: int|
            is_lms_at(types_of(t), p) && is_lms_at(types_of(t), q) && #[trigger] names[p] == #[trigger] names[q]
                ==> lms_equal(t, types_of(t), p, q),
        0 <= a < u.len(),
        0 <= b < u.len(),
        a != b,
    ensures
        slt(u, a, b) == slt(t, lms_of(types_of(t))[a] as int, lms_of(types_of(t))[b] as int),
    decreases u.len() - a,
{
    let ty = types_of(t);
    let off = lms_of(ty);
    let n = t.len() as int;
    let m = off.len() as int;
    lemma_lms_of(t);
    let p = off[a] as int;
    let q = off[b] as int;
    assert(is_lms_at(ty, p) && is_lms_at(ty, q));
    assert(p != q);
    assert(u[a] == names[p] && u[b] == names[q]);
    if names[p] < names[q] {
    } else if names[q] < names[p] {
        lemma_slt_asym(t, q, p);
    } else {
        assert(lms_equal(t, ty, p, q));
        if p == n - 1 {
            assert(t[q] > 0);
        }
        if q == n - 1 {
            assert(t[p] > 0);
        }
        assert(a != m - 1 && b != m - 1);
        lemma_tail_equal_slt(t, p + 1, q + 1);
        assert(slt(t, p, q) == slt(t, p + 1, q + 1));
        assert(off[a + 1] == crate::theory::lms::next_lms(ty, p + 1));
        assert(off[b + 1] == crate::theory::lms::next_lms(ty, q + 1));
        lemma_reduced_order(t, names, u, a + 1, b + 1);
    }
}

} // verus!
