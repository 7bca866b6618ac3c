//! Texts that end with a unique smallest symbol. Shifting every symbol down by
//! the last one gives a text that ends in 0 and whose other symbols are
//! positive; types, suffix order, LMS substrings, bucket starts and the three
//! passes of induced sorting are the same on both.
use vstd::prelude::*;
use crate::types::{type_of, types_of, is_lms_at};
use crate::theory::order::{valid_text, slt, reach};
use crate::theory::count::lemma_count_ext;
use crate::theory::rank::{bstart, lt_sym, bucket_bounds};
use crate::theory::seeds::seed_list;
use crate::sais::lemma_induced_sort;
use crate::naming::{lms_tail_equal, lms_equal, name_step, name_run};
use crate::induce::{
    empty_array, place_step, place_step_ok, place_run, place_safe, l_step, l_step_ok, l_run, l_safe,
    s_step, s_step_ok, s_run, s_safe,
};

verus! {

/// A text whose last symbol is smaller than every other symbol.
pub open spec fn sentinel_text(t: Seq<int>) -> bool {
    &&& t.len() >= 1
    &&& forall|k: int| 0 <= k < t.len() - 1 ==> #[trigger] t[k] > t[t.len() - 1]
}

/// Every symbol of `t` lowered by `m`.
pub open spec fn shift(t: Seq<int>, m: int) -> Seq<int> {
    Seq::new(t.len(), |k: int| t[k] - m)
}

/// A bucket table seen from symbol `m` on: entry `c` is entry `c + m` of `b`.
pub open spec fn from_symbol(b: Seq<usize>, m: int) -> Seq<usize> {
    b.subrange(m, b.len() as int)
}

pub proof fn lemma_shift_valid(t: Seq<int>)
    requires
        sentinel_text(t),
    ensures
        valid_text(shift(t, t[t.len() - 1])),
{
}

pub proof fn lemma_shift_type(t: Seq<int>, m: int, i: int)
    ensures
        type_of(shift(t, m), i) == type_of(t, i),
    decreases t.len() - i,
{
    if 0 <= i && i + 1 < t.len() && t[i] == t[i + 1] {
        lemma_shift_type(t, m, i + 1);
    }
}

pub proof fn lemma_shift_types(t: Seq<int>, m: int)
    ensures
        types_of(shift(t, m)) == types_of(t),
{
    assert forall|i: int| 0 <= i < t.len() implies types_of(shift(t, m))[i] == types_of(t)[i] by {
        lemma_shift_type(t, m, i);
    }
    assert(types_of(shift(t, m)) =~= types_of(t));
}

pub proof fn lemma_shift_slt(t: Seq<int>, m: int, i: int, j: int)
    ensures
        slt(shift(t, m), i, j) == slt(t, i, j),
    decreases t.len() - i,
{
    if 0 <= i < t.len() && 0 <= j < t.len() && t[i] == t[j] {
        lemma_shift_slt(t, m, i + 1, j + 1);
    }
}

pub proof fn lemma_shift_bstart(t: Seq<int>, m: int, c: int)
    ensures
        bstart(shift(t, m), c - m) == bstart(t, c),
{
    let n = t.len() as int;
    assert forall|k: int| 0 <= k < n implies #[trigger] lt_sym(shift(t, m), c - m)(k) == lt_sym(t, c)(k) by {
    }
    lemma_count_ext(n, lt_sym(shift(t, m), c - m), lt_sym(t, c));
}

pub proof fn lemma_shift_tail_equal(t: Seq<int>, ty: Seq<u8>, m: int, a: int, b: int)
    requires
        ty.len() == t.len(),
    ensures
        lms_tail_equal(shift(t, m), ty, a, b) == lms_tail_equal(t, ty, a, b),
    decreases t.len() - a,
{
    if 0 <= a < t.len() && 0 <= b < ty.len() && !is_lms_at(ty, a) && !is_lms_at(ty, b) {
        lemma_shift_tail_equal(t, ty, m, a + 1, b + 1);
    }
}

pub proof fn lemma_shift_lms_equal(t: Seq<int>, ty: Seq<u8>, m: int, p: int, q: int)
    requires
        ty.len() == t.len(),
        0 <= p < t.len(),
        0 <= q < t.len(),
    ensures
        lms_equal(shift(t, m), ty, p, q) == lms_equal(t, ty, p, q),
{
    lemma_shift_tail_equal(t, ty, m, p + 1, q + 1);
}

/// Placing the seeds on the shifted text with the table seen from `m` on does
/// what placing them on the text does; the entries below `m` stay.
pub proof fn lemma_shift_place(t: Seq<int>, m: int, lms: Seq<usize>, sa: Seq<usize>, tails: Seq<usize>, k: int)
    requires
        0 <= m <= tails.len(),
        forall|x: int| 0 <= x < t.len() ==> #[trigger] t[x] >= m,
        place_safe(shift(t, m), lms, sa, from_symbol(tails, m), k),
    ensures
        place_safe(t, lms, sa, tails, k),
        ({
            let r = place_run(t, lms, sa, tails, k);
            let r2 = place_run(shift(t, m), lms, sa, from_symbol(tails, m), k);
            &&& r.0 == r2.0
            &&& r.1.len() == tails.len()
            &&& from_symbol(r.1, m) == r2.1
            &&& r.1.subrange(0, m) == tails.subrange(0, m)
        }),
    decreases k,
{
    let u = shift(t, m);
    let tl = from_symbol(tails, m);
    if k > 0 {
        let p = lms[k - 1];
        assert(place_step_ok(u, lms, sa, tl, k - 1));
        let c = t[p as int];
        assert(u[p as int] == c - m);
        assert(tl[c - m] == tails[c]);
        let st = place_step(t, lms, sa, tails, k - 1);
        let st2 = place_step(u, lms, sa, tl, k - 1);
        assert(st.0 == st2.0);
        assert(from_symbol(st.1, m) =~= st2.1);
        assert(st.1.subrange(0, m) =~= tails.subrange(0, m));
        lemma_shift_place(t, m, lms, st.0, st.1, k - 1);
    }
}

/// The L pass on the shifted text with the heads seen from `m` on does what
/// the L pass on the text does; the entries below `m` stay.
pub proof fn lemma_shift_l(t: Seq<int>, ty: Seq<u8>, m: int, sa: Seq<usize>, heads: Seq<usize>, i: int)
    requires
        ty.len() == t.len(),
        0 <= m <= heads.len(),
        forall|x: int| 0 <= x < t.len() ==> #[trigger] t[x] >= m,
        l_safe(shift(t, m), ty, sa, from_symbol(heads, m), i),
    ensures
        l_safe(t, ty, sa, heads, i),
        ({
            let r = l_run(t, ty, sa, heads, i);
            let r2 = l_run(shift(t, m), ty, sa, from_symbol(heads, m), i);
            &&& r.0 == r2.0
            &&& r.1.len() == heads.len()
            &&& from_symbol(r.1, m) == r2.1
            &&& r.1.subrange(0, m) == heads.subrange(0, m)
        }),
    decreases t.len() - i,
{
    let u = shift(t, m);
    let hd = from_symbol(heads, m);
    if 0 <= i < t.len() {
        assert(l_step_ok(u, ty, sa, hd, i));
        let x = sa[i];
        if !(x == usize::MAX || x == 0 || ty[x - 1] != crate::types::L) {
            let c = t[x - 1];
            assert(u[x - 1] == c - m);
            assert(hd[c - m] == heads[c]);
        }
        let st = l_step(t, ty, sa, heads, i);
        let st2 = l_step(u, ty, sa, hd, i);
        assert(st.0 == st2.0);
        assert(from_symbol(st.1, m) =~= st2.1);
        assert(st.1.subrange(0, m) =~= heads.subrange(0, m));
        lemma_shift_l(t, ty, m, st.0, st.1, i + 1);
    }
}

/// The S pass on the shifted text with the tails seen from `m` on does what
/// the S pass on the text does; the entries below `m` stay.
pub proof fn lemma_shift_s(t: Seq<int>, ty: Seq<u8>, m: int, sa: Seq<usize>, tails: Seq<usize>, i: int)
    requires
        ty.len() == t.len(),
        0 <= m <= tails.len(),
        forall|x: int| 0 <= x < t.len() ==> #[trigger] t[x] >= m,
        s_safe(shift(t, m), ty, sa, from_symbol(tails, m), i),
    ensures
        s_safe(t, ty, sa, tails, i),
        ({
            let r = s_run(t, ty, sa, tails, i);
            let r2 = s_run(shift(t, m), ty, sa, from_symbol(tails, m), i);
            &&& r.0 == r2.0
            &&& r.1.len() == tails.len()
            &&& from_symbol(r.1, m) == r2.1
            &&& r.1.subrange(0, m) == tails.subrange(0, m)
        }),
    decreases i,
{
    let u = shift(t, m);
    let tl = from_symbol(tails, m);
    if i > 0 {
        assert(s_step_ok(u, ty, sa, tl, i - 1));
        let x = sa[i - 1];
        if !(x == usize::MAX || x == 0 || ty[x - 1] != crate::types::S) {
            let c = t[x - 1];
            assert(u[x - 1] == c - m);
            assert(tl[c - m] == tails[c]);
        }
        let st = s_step(t, ty, sa, tails, i - 1);
        let st2 = s_step(u, ty, sa, tl, i - 1);
        assert(st.0 == st2.0);
        assert(from_symbol(st.1, m) =~= st2.1);
        assert(st.1.subrange(0, m) =~= tails.subrange(0, m));
        lemma_shift_s(t, ty, m, st.0, st.1, i - 1);
    }
}

/// Placing a seed list, the L pass and the S pass on a text with a unique
/// smallest last symbol stay in bounds and do what they do on the shifted
/// text, with the bucket tables seen from that symbol on.
pub proof fn lemma_shift_passes(t: Seq<int>, list: Seq<usize>, heads0: Seq<usize>, tails0: Seq<usize>)
    requires
        sentinel_text(t),
        2 <= t.len() <= usize::MAX,
        seed_list(t, list),
        bucket_bounds(t, heads0, tails0),
    ensures
        ({
            let n = t.len() as int;
            let m = t[n - 1];
            let u = shift(t, m);
            let ty = types_of(t);
            let hu = from_symbol(heads0, m);
            let tu = from_symbol(tails0, m);
            let sa1 = place_run(t, list, empty_array(n), tails0, list.len() as int).0;
            let l = l_run(t, ty, sa1, heads0, 0);
            let sa3 = s_run(t, ty, l.0, tails0, n).0;
            &&& valid_text(u)
            &&& types_of(u) == ty
            &&& seed_list(u, list)
            &&& bucket_bounds(u, hu, tu)
            &&& 0 <= m < heads0.len()
            &&& m < tails0.len()
            &&& forall|x: int| 0 <= x < n ==> #[trigger] t[x] >= m
            &&& place_safe(t, list, empty_array(n), tails0, list.len() as int)
            &&& l_safe(t, ty, sa1, heads0, 0)
            &&& s_safe(t, ty, l.0, tails0, n)
            &&& sa1 == place_run(u, list, empty_array(n), tu, list.len() as int).0
            &&& l.0 == l_run(u, ty, sa1, hu, 0).0
            &&& l.1.len() == heads0.len()
            &&& from_symbol(l.1, m) == l_run(u, ty, sa1, hu, 0).1
            &&& l.1.subrange(0, m) == heads0.subrange(0, m)
            &&& sa3 == s_run(u, ty, l.0, tu, n).0
        }),
{
    let n = t.len() as int;
    let m = t[n - 1];
    let u = shift(t, m);
    let ty = types_of(t);
    let hu = from_symbol(heads0, m);
    let tu = from_symbol(tails0, m);
    lemma_shift_valid(t);
    lemma_shift_types(t, m);
    assert(0 <= m < heads0.len());
    assert forall|k: int| 0 <= k < n implies #[trigger] t[k] >= m by {
    }
    assert forall|k: int| 0 <= k < n implies hu[#[trigger] u[k]] == bstart(u, u[k]) && tu[u[k]] == bstart(
        u,
        u[k] + 1,
    ) - 1 by {
        lemma_shift_bstart(t, m, t[k]);
        lemma_shift_bstart(t, m, t[k] + 1);
    }
    lemma_induced_sort(u, list, hu, tu);
    let sa1 = place_run(u, list, empty_array(n), tu, list.len() as int).0;
    lemma_shift_place(t, m, list, empty_array(n), tails0, list.len() as int);
    lemma_shift_l(t, ty, m, sa1, heads0, 0);
    let sa2 = l_run(u, ty, sa1, hu, 0).0;
    lemma_shift_s(t, ty, m, sa2, tails0, n);
}

pub proof fn lemma_shift_reach(t: Seq<int>, ty: Seq<u8>, m: int, i: int, j: int, fl: bool)
    ensures
        reach(shift(t, m), ty, i, j, fl) == reach(t, ty, i, j, fl),
    decreases t.len() - i,
{
    if 0 <= i < t.len() && 0 <= j < t.len() && t[i] == t[j] {
        lemma_shift_reach(t, ty, m, i + 1, j + 1, ty[i] == crate::types::L);
    }
}

/// The naming scan gives the same names on the shifted text.
pub proof fn lemma_shift_name_run(t: Seq<int>, ty: Seq<u8>, m: int, sa: Seq<usize>, k: int)
    requires
        ty.len() == t.len(),
    ensures
        name_run(shift(t, m), ty, sa, k) == name_run(t, ty, sa, k),
        name_run(t, ty, sa, k).last matches Some(l) ==> is_lms_at(ty, l as int),
    decreases k,
{
    if k > 0 {
        lemma_shift_name_run(t, ty, m, sa, k - 1);
        let st = name_run(t, ty, sa, k - 1);
        let x = sa[k - 1];
        if x != usize::MAX && is_lms_at(ty, x as int) {
            if let Some(l) = st.last {
                lemma_shift_lms_equal(t, ty, m, x as int, l as int);
            }
        }
    } else {
        assert(name_run(shift(t, m), ty, sa, 0).names =~= name_run(t, ty, sa, 0).names);
    }
}

} // verus!
