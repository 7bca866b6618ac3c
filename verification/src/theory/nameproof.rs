//! What naming achieves when the LMS positions arrive in the induced order:
//! names grow along the order, equal names mean equal LMS substrings, and
//! smaller names mean smaller suffixes.
use vstd::prelude::*;
use crate::theory::count::{
    count, lemma_count_ext, lemma_count_add_point, lemma_count_none, lemma_count_mono,
};
use crate::types::{S, types_of, is_lms_at};
use crate::theory::order::{
    valid_text, reach, slt, sigma_injective, lemma_ford_slt_unreached, lemma_types_of_binary,
};
use crate::theory::rank::{pos, lemma_pos_order, lemma_pos_range};
use crate::theory::spass::{induced, lemma_pos_onto};
use crate::naming::{NameState, name_step, name_run, lms_equal};
use crate::theory::lms::{
    lemma_reach_sandwich, lemma_reach_lms_equal, lemma_lms_equal_equiv, lemma_reach_symm,
};
use crate::theory::lmslist::lms_pred;

verus! {

/// Every slot of an induced array holds the position whose final slot it is.
pub proof fn lemma_induced_slots(t: Seq<int>, sigma: spec_fn(int) -> int, sa: Seq<usize>)
    requires
        valid_text(t),
        sigma_injective(types_of(t), sigma),
        induced(t, sigma, sa),
    ensures
        forall|x: int| 0 <= x < t.len() ==> #[trigger] sa[x] < t.len() && pos(t, sigma, sa[x] as int) == x,
{
    assert forall|x: int| 0 <= x < t.len() implies #[trigger] sa[x] < t.len() && pos(t, sigma, sa[x] as int)
        == x by {
        lemma_pos_onto(t, sigma, x);
        let j = choose|j: int| 0 <= j < t.len() && #[trigger] pos(t, sigma, j) == x;
        assert(sa[pos(t, sigma, j)] == j);
    }
}

/// The predicate "`x` is a leftmost S position whose slot is below `k`".
pub open spec fn seen(t: Seq<int>, sigma: spec_fn(int) -> int, k: int) -> spec_fn(int) -> bool {
    |x: int| is_lms_at(types_of(t), x) && pos(t, sigma, x) < k
}

/// The state of the naming scan after the slots below `k`.
pub open spec fn name_inv(t: Seq<int>, sigma: spec_fn(int) -> int, st: NameState, k: int) -> bool {
    let n = t.len() as int;
    let sn = seen(t, sigma, k);
    let cnt = count(n, sn) as int;
    &&& st.names.len() == n
    &&& forall|x: int| 0 <= x < n && !sn(x) ==> #[trigger] st.names[x] == usize::MAX
    &&& forall|x: int| 0 <= x < n && sn(x) ==> 1 <= #[trigger] st.names[x] <= st.name
    &&& st.last is None ==> cnt == 0 && st.name == 1
    &&& st.last matches Some(l) ==> {
        &&& sn(l as int)
        &&& st.names[l as int] == st.name
        &&& forall|x: int| 0 <= x < n && sn(x) ==> #[trigger] pos(t, sigma, x) <= pos(t, sigma, l as int)
    }
    &&& forall|p: int, q: int|
        0 <= p < n && 0 <= q < n && sn(p) && sn(q) && pos(t, sigma, p) < pos(t, sigma, q) ==> #[trigger] st.names[p]
            <= #[trigger] st.names[q]
    &&& forall|p: int, q: int|
        0 <= p < n && 0 <= q < n && sn(p) && sn(q) && #[trigger] st.names[p] == #[trigger] st.names[q]
            ==> lms_equal(t, types_of(t), p, q)
    &&& forall|p: int, q: int|
        0 <= p < n && 0 <= q < n && sn(p) && sn(q) && reach(t, types_of(t), p, q, false) ==> #[trigger] st.names[p]
            == #[trigger] st.names[q]
    &&& 1 <= st.name
    &&& cnt >= 1 ==> st.name <= cnt
    &&& st.name == cnt ==> forall|p: int, q: int|
        0 <= p < n && 0 <= q < n && sn(p) && sn(q) && p != q ==> #[trigger] st.names[p] != #[trigger] st.names[q]
}

/// The fixed facts the naming scan relies on.
pub open spec fn name_ctx(t: Seq<int>, sigma: spec_fn(int) -> int, sa: Seq<usize>) -> bool {
    &&& valid_text(t)
    &&& t.len() <= usize::MAX
    &&& count(t.len() as int, lms_pred(types_of(t))) * 2 <= t.len()
    &&& sigma_injective(types_of(t), sigma)
    &&& induced(t, sigma, sa)
}

/// A slot that holds no leftmost S position changes nothing.
proof fn lemma_name_step_skip(t: Seq<int>, sigma: spec_fn(int) -> int, sa: Seq<usize>, st: NameState, k: int)
    requires
        name_ctx(t, sigma, sa),
        name_inv(t, sigma, st, k),
        0 <= k < t.len(),
        sa[k] < t.len(),
        pos(t, sigma, sa[k] as int) == k,
        !is_lms_at(types_of(t), sa[k] as int),
    ensures
        name_inv(t, sigma, name_step(t, types_of(t), st, sa[k]), k + 1),
{
    let n = t.len() as int;
    let v = sa[k] as int;
    assert forall|x: int| 0 <= x < n implies #[trigger] seen(t, sigma, k + 1)(x) == seen(t, sigma, k)(x) by {
        if x != v && is_lms_at(types_of(t), x) && pos(t, sigma, x) == k {
            lemma_pos_order(t, sigma, x, v);
        }
    }
    lemma_count_ext(n, seen(t, sigma, k + 1), seen(t, sigma, k));
}

} // verus!

verus! {

/// Scanning a slot that holds a leftmost S position adds it to the seen ones.
proof fn lemma_seen_add(t: Seq<int>, sigma: spec_fn(int) -> int, k: int, v: int)
    requires
        valid_text(t),
        sigma_injective(types_of(t), sigma),
        0 <= v < t.len(),
        pos(t, sigma, v) == k,
        is_lms_at(types_of(t), v),
    ensures
        forall|x: int| 0 <= x < t.len() ==> #[trigger] seen(t, sigma, k + 1)(x) == (seen(t, sigma, k)(x) || x == v),
        !seen(t, sigma, k)(v),
        count(t.len() as int, seen(t, sigma, k + 1)) == count(t.len() as int, seen(t, sigma, k)) + 1,
{
    let n = t.len() as int;
    assert forall|x: int| 0 <= x < n implies #[trigger] seen(t, sigma, k + 1)(x) == (seen(t, sigma, k)(x)
        || x == v) by {
        if x != v && is_lms_at(types_of(t), x) && pos(t, sigma, x) == k {
            lemma_pos_order(t, sigma, x, v);
        }
    }
    lemma_count_add_point(n, seen(t, sigma, k + 1), seen(t, sigma, k), v);
}

/// The new name of a scanned leftmost S position.
pub open spec fn new_name(t: Seq<int>, st: NameState, v: int) -> int {
    match st.last {
        Some(l) => if lms_equal(t, types_of(t), v, l as int) {
            st.name
        } else {
            st.name + 1
        },
        None => st.name,
    }
}

proof fn lemma_name_step_basic(t: Seq<int>, sigma: spec_fn(int) -> int, sa: Seq<usize>, st: NameState, k: int)
    requires
        name_ctx(t, sigma, sa),
        name_inv(t, sigma, st, k),
        0 <= k < t.len(),
        sa[k] < t.len(),
        pos(t, sigma, sa[k] as int) == k,
        is_lms_at(types_of(t), sa[k] as int),
    ensures
        ({
            let v = sa[k] as int;
            let st2 = name_step(t, types_of(t), st, sa[k]);
            let n = t.len() as int;
            let sn = seen(t, sigma, k + 1);
            let cnt = count(n, sn) as int;
            &&& st2.name == new_name(t, st, v)
            &&& st2.names == st.names.update(v, new_name(t, st, v) as usize)
            &&& st2.last == Some(v as usize)
            &&& 1 <= st2.name < usize::MAX
            &&& st2.names.len() == n
            &&& forall|x: int| 0 <= x < n && !sn(x) ==> #[trigger] st2.names[x] == usize::MAX
            &&& forall|x: int| 0 <= x < n && sn(x) ==> 1 <= #[trigger] st2.names[x] <= st2.name
            &&& sn(v)
            &&& st2.names[v] == st2.name
            &&& forall|x: int| 0 <= x < n && sn(x) ==> #[trigger] pos(t, sigma, x) <= pos(t, sigma, v)
            &&& forall|p: int, q: int|
                0 <= p < n && 0 <= q < n && sn(p) && sn(q) && pos(t, sigma, p) < pos(t, sigma, q)
                    ==> #[trigger] st2.names[p] <= #[trigger] st2.names[q]
            &&& cnt >= 1 && st2.name <= cnt
            &&& st2.name == cnt ==> forall|p: int, q: int|
                0 <= p < n && 0 <= q < n && sn(p) && sn(q) && p != q ==> #[trigger] st2.names[p]
                    != #[trigger] st2.names[q]
        }),
{
    let n = t.len() as int;
    let v = sa[k] as int;
    lemma_seen_add(t, sigma, k, v);
    lemma_count_mono(n, seen(t, sigma, k + 1), lms_pred(types_of(t)));
    let st2 = name_step(t, types_of(t), st, sa[k]);
    assert(st2.name == new_name(t, st, v));
    let sn = seen(t, sigma, k + 1);
    let cnt0 = count(n, seen(t, sigma, k)) as int;
    if st.last is Some {
        let l = st.last->0;
        lemma_count_none(n, |y: int| false);
        crate::theory::count::lemma_count_strict(n, |y: int| false, seen(t, sigma, k), l as int);
    }
    assert(st.name <= new_name(t, st, v) <= cnt0 + 1);
    assert(cnt0 + 1 <= n / 2);
    assert(new_name(t, st, v) < usize::MAX);
    assert(st2.names == st.names.update(v, new_name(t, st, v) as usize));
    assert(st2.names[v] == new_name(t, st, v));
    assert forall|x: int| 0 <= x < n && sn(x) implies #[trigger] pos(t, sigma, x) <= pos(t, sigma, v) by {
        if x != v {
        }
    }
    assert forall|p: int, q: int|
        0 <= p < n && 0 <= q < n && sn(p) && sn(q) && pos(t, sigma, p) < pos(t, sigma, q) implies #[trigger] st2.names[p]
        <= #[trigger] st2.names[q] by {
        if q == v {
        } else if p == v {
        }
    }
    assert forall|x: int| 0 <= x < n && sn(x) implies 1 <= #[trigger] st2.names[x] <= st2.name by {
    }
    if st2.name == count(n, sn) {
        assert forall|p: int, q: int|
            0 <= p < n && 0 <= q < n && sn(p) && sn(q) && p != q implies #[trigger] st2.names[p]
            != #[trigger] st2.names[q] by {
            if st.last is None {
                lemma_count_none_means(t, sigma, k, p);
                lemma_count_none_means(t, sigma, k, q);
            }
        }
    }
}

/// No position is seen when none is counted.
proof fn lemma_count_none_means(t: Seq<int>, sigma: spec_fn(int) -> int, k: int, x: int)
    requires
        count(t.len() as int, seen(t, sigma, k)) == 0,
        0 <= x < t.len(),
    ensures
        !seen(t, sigma, k)(x),
{
    if seen(t, sigma, k)(x) {
        lemma_count_none(t.len() as int, |y: int| false);
        crate::theory::count::lemma_count_strict(t.len() as int, |y: int| false, seen(t, sigma, k), x);
    }
}

} // verus!

verus! {

proof fn lemma_name_step_eq(t: Seq<int>, sigma: spec_fn(int) -> int, sa: Seq<usize>, st: NameState, k: int)
    requires
        name_ctx(t, sigma, sa),
        name_inv(t, sigma, st, k),
        0 <= k < t.len(),
        sa[k] < t.len(),
        pos(t, sigma, sa[k] as int) == k,
        is_lms_at(types_of(t), sa[k] as int),
    ensures
        ({
            let st2 = name_step(t, types_of(t), st, sa[k]);
            let n = t.len() as int;
            let sn = seen(t, sigma, k + 1);
            forall|p: int, q: int|
                0 <= p < n && 0 <= q < n && sn(p) && sn(q) && #[trigger] st2.names[p] == #[trigger] st2.names[q]
                    ==> lms_equal(t, types_of(t), p, q)
        }),
{
    let n = t.len() as int;
    let v = sa[k] as int;
    let ty = types_of(t);
    lemma_name_step_basic(t, sigma, sa, st, k);
    lemma_seen_add(t, sigma, k, v);
    let st2 = name_step(t, ty, st, sa[k]);
    let sn = seen(t, sigma, k + 1);
    assert forall|p: int, q: int|
        0 <= p < n && 0 <= q < n && sn(p) && sn(q) && #[trigger] st2.names[p] == #[trigger] st2.names[q] implies lms_equal(
        t,
        ty,
        p,
        q,
    ) by {
        lemma_lms_equal_equiv(t, p, q, p);
        if p != v && q != v {
            assert(st.names[p] == st.names[q]);
        } else if p == v && q == v {
        } else {
            let o = if p == v { q } else { p };
            assert(seen(t, sigma, k)(o));
            if st.last is None {
                lemma_count_none_means(t, sigma, k, o);
            } else {
                let l = st.last->0 as int;
                assert(st.names[o] == new_name(t, st, v));
                assert(lms_equal(t, ty, v, l));
                lemma_lms_equal_equiv(t, v, l, o);
                lemma_lms_equal_equiv(t, l, o, v);
                lemma_lms_equal_equiv(t, o, l, v);
                if o != l {
                    assert(lms_equal(t, ty, o, l));
                }
                lemma_lms_equal_equiv(t, o, v, o);
                lemma_lms_equal_equiv(t, v, o, v);
            }
        }
    }
}

proof fn lemma_name_step_reach(t: Seq<int>, sigma: spec_fn(int) -> int, sa: Seq<usize>, st: NameState, k: int)
    requires
        name_ctx(t, sigma, sa),
        name_inv(t, sigma, st, k),
        0 <= k < t.len(),
        sa[k] < t.len(),
        pos(t, sigma, sa[k] as int) == k,
        is_lms_at(types_of(t), sa[k] as int),
    ensures
        ({
            let st2 = name_step(t, types_of(t), st, sa[k]);
            let n = t.len() as int;
            let sn = seen(t, sigma, k + 1);
            forall|p: int, q: int|
                0 <= p < n && 0 <= q < n && sn(p) && sn(q) && reach(t, types_of(t), p, q, false)
                    ==> #[trigger] st2.names[p] == #[trigger] st2.names[q]
        }),
{
    let n = t.len() as int;
    let v = sa[k] as int;
    let ty = types_of(t);
    lemma_name_step_basic(t, sigma, sa, st, k);
    lemma_seen_add(t, sigma, k, v);
    let st2 = name_step(t, ty, st, sa[k]);
    let sn = seen(t, sigma, k + 1);
    assert forall|p: int, q: int|
        0 <= p < n && 0 <= q < n && sn(p) && sn(q) && reach(t, ty, p, q, false) implies #[trigger] st2.names[p]
        == #[trigger] st2.names[q] by {
        if p != v && q != v {
            assert(st.names[p] == st.names[q]);
        } else if p == v && q == v {
        } else {
            let o = if p == v { q } else { p };
            assert(seen(t, sigma, k)(o));
            if p == v {
                lemma_reach_symm(t, p, q, false);
            }
            assert(reach(t, ty, o, v, false));
            if st.last is None {
                lemma_count_none_means(t, sigma, k, o);
            } else {
                let l = st.last->0 as int;
                assert(seen(t, sigma, k)(l));
                if o == l {
                    lemma_reach_lms_equal(t, l, v);
                    lemma_lms_equal_equiv(t, l, v, l);
                } else {
                    assert(pos(t, sigma, o) <= pos(t, sigma, l));
                    lemma_pos_order(t, sigma, o, l);
                    lemma_pos_order(t, sigma, l, v);
                    lemma_reach_sandwich(t, sigma, o, l, v, false);
                    assert(st.names[o] == st.names[l]);
                    lemma_reach_lms_equal(t, l, v);
                    lemma_lms_equal_equiv(t, l, v, l);
                }
                assert(new_name(t, st, v) == st.name);
            }
        }
    }
}

/// One step of the naming scan keeps its invariant.
pub proof fn lemma_name_step(t: Seq<int>, sigma: spec_fn(int) -> int, sa: Seq<usize>, st: NameState, k: int)
    requires
        name_ctx(t, sigma, sa),
        name_inv(t, sigma, st, k),
        0 <= k < t.len(),
    ensures
        name_inv(t, sigma, name_step(t, types_of(t), st, sa[k]), k + 1),
{
    lemma_induced_slots(t, sigma, sa);
    assert(sa[k] < t.len() && pos(t, sigma, sa[k] as int) == k);
    if is_lms_at(types_of(t), sa[k] as int) {
        lemma_name_step_basic(t, sigma, sa, st, k);
        lemma_name_step_eq(t, sigma, sa, st, k);
        lemma_name_step_reach(t, sigma, sa, st, k);
    } else {
        lemma_name_step_skip(t, sigma, sa, st, k);
    }
}

/// The naming scan keeps its invariant from the start to slot `k`.
pub proof fn lemma_name_run(t: Seq<int>, sigma: spec_fn(int) -> int, sa: Seq<usize>, k: int)
    requires
        name_ctx(t, sigma, sa),
        0 <= k <= t.len(),
    ensures
        name_inv(t, sigma, name_run(t, types_of(t), sa, k), k),
    decreases k,
{
    let n = t.len() as int;
    if k == 0 {
        assert forall|x: int| 0 <= x < n implies !#[trigger] seen(t, sigma, 0)(x) by {
            if is_lms_at(types_of(t), x) {
                lemma_pos_range(t, sigma, x);
            }
        }
        lemma_count_none(n, seen(t, sigma, 0));
    } else {
        lemma_name_run(t, sigma, sa, k - 1);
        lemma_name_step(t, sigma, sa, name_run(t, types_of(t), sa, k - 1), k - 1);
    }
}

} // verus!

verus! {

/// What the full naming scan over an induced array gives: every leftmost S
/// position and only those get a name; names grow along the induced order;
/// equal names mean equal LMS substrings; a smaller name means a smaller
/// suffix; and the names are all distinct when the last name is the number
/// of leftmost S positions.
pub proof fn lemma_names_final(t: Seq<int>, sigma: spec_fn(int) -> int, sa: Seq<usize>)
    requires
        name_ctx(t, sigma, sa),
        t.len() >= 2,
    ensures
        ({
            let st = name_run(t, types_of(t), sa, t.len() as int);
            let ty = types_of(t);
            let n = t.len() as int;
            &&& st.names.len() == n
            &&& 1 <= st.name <= count(n, lms_pred(ty))
            &&& forall|x: int| 0 <= x < n && !is_lms_at(ty, x) ==> #[trigger] st.names[x] == usize::MAX
            &&& forall|x: int| 0 <= x < n && is_lms_at(ty, x) ==> 1 <= #[trigger] st.names[x] <= st.name
            &&& forall|p: int, q: int|
                is_lms_at(ty, p) && is_lms_at(ty, q) && pos(t, sigma, p) < pos(t, sigma, q) ==> #[trigger] st.names[p]
                    <= #[trigger] st.names[q]
            &&& forall|p: int, q: int|
                is_lms_at(ty, p) && is_lms_at(ty, q) && #[trigger] st.names[p] == #[trigger] st.names[q] ==> lms_equal(
                    t,
                    ty,
                    p,
                    q,
                )
            &&& forall|p: int, q: int|
                is_lms_at(ty, p) && is_lms_at(ty, q) && #[trigger] st.names[p] < #[trigger] st.names[q] ==> slt(
                    t,
                    p,
                    q,
                )
            &&& st.name == count(n, lms_pred(ty)) ==> forall|p: int, q: int|
                is_lms_at(ty, p) && is_lms_at(ty, q) && p != q ==> #[trigger] st.names[p] != #[trigger] st.names[q]
        }),
{
    let n = t.len() as int;
    let ty = types_of(t);
    lemma_name_run(t, sigma, sa, n);
    let st = name_run(t, ty, sa, n);
    assert forall|x: int| 0 <= x < n implies #[trigger] seen(t, sigma, n)(x) == lms_pred(ty)(x) by {
        if is_lms_at(ty, x) {
            lemma_pos_range(t, sigma, x);
        }
    }
    lemma_count_ext(n, seen(t, sigma, n), lms_pred(ty));
    lemma_types_of_binary(t);
    assert forall|p: int, q: int|
        is_lms_at(ty, p) && is_lms_at(ty, q) && #[trigger] st.names[p] < #[trigger] st.names[q] implies slt(t, p, q) by {
        assert(seen(t, sigma, n)(p) && seen(t, sigma, n)(q));
        if pos(t, sigma, q) < pos(t, sigma, p) {
        } else {
            lemma_pos_order(t, sigma, p, q);
            if reach(t, ty, p, q, false) {
            } else {
                lemma_ford_slt_unreached(t, sigma, p, q, false);
            }
        }
    }
    assert forall|p: int, q: int|
        is_lms_at(ty, p) && is_lms_at(ty, q) && #[trigger] st.names[p] == #[trigger] st.names[q] implies lms_equal(
        t,
        ty,
        p,
        q,
    ) by {
        assert(seen(t, sigma, n)(p) && seen(t, sigma, n)(q));
    }
    assert forall|p: int, q: int|
        is_lms_at(ty, p) && is_lms_at(ty, q) && pos(t, sigma, p) < pos(t, sigma, q) implies #[trigger] st.names[p]
        <= #[trigger] st.names[q] by {
        assert(seen(t, sigma, n)(p) && seen(t, sigma, n)(q));
    }
    if st.name == count(n, lms_pred(ty)) {
        assert forall|p: int, q: int| is_lms_at(ty, p) && is_lms_at(ty, q) && p != q implies #[trigger] st.names[p]
            != #[trigger] st.names[q] by {
            assert(seen(t, sigma, n)(p) && seen(t, sigma, n)(q));
        }
    }
    if st.last is None {
        crate::theory::order::lemma_type_facts(t, n - 2);
        assert(is_lms_at(ty, n - 1));
        lemma_pos_range(t, sigma, n - 1);
        crate::theory::count::lemma_count_none(n, |y: int| false);
        crate::theory::count::lemma_count_strict(n, |y: int| false, seen(t, sigma, n), n - 1);
    }
}

} // verus!
