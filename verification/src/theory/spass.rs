//! What the S pass of induced sorting achieves: after the L pass, every
//! position lands in its final slot, so the array lists the positions in the
//! induced order.
use vstd::prelude::*;
use vstd::set_lib::{set_int_range, lemma_int_range, lemma_map_size, lemma_subset_equality};
use crate::theory::count::{
    count, lemma_count_ext, lemma_count_split, lemma_count_add_point, lemma_count_none,
    lemma_count_complement, lemma_count_strict,
};
use crate::types::{S, L, types_of, is_lms_at};
use crate::theory::order::{
    valid_text, ford, sigma_injective, lemma_ford_irrefl, lemma_ford_total, lemma_type_facts,
    lemma_types_of_binary, lemma_equal_not_last,
};
use crate::theory::rank::{
    lt_sym, bstart, pos, seedpos, lms_after, lemma_pos_range, lemma_pos_order, lemma_pos_mono,
    lemma_pos_bucket, lemma_s_succ_after,
};
use crate::theory::lpass::l_result;
use crate::induce::{empty_slot, s_step, s_step_ok, s_run, s_safe};

verus! {

/// Every slot is the final slot of some position.
pub proof fn lemma_pos_onto(t: Seq<int>, sigma: spec_fn(int) -> int, x: int)
    requires
        valid_text(t),
        sigma_injective(types_of(t), sigma),
        0 <= x < t.len(),
    ensures
        exists|j: int| 0 <= j < t.len() && #[trigger] pos(t, sigma, j) == x,
{
    let n = t.len() as int;
    let a = set_int_range(0, n);
    let f = |j: int| pos(t, sigma, j);
    lemma_int_range(0, n);
    assert forall|i: int, j: int| a.contains(i) && a.contains(j) && #[trigger] f(i) == #[trigger] f(j) implies i
        == j by {
        if i != j {
            lemma_pos_order(t, sigma, i, j);
        }
    }
    assert(vstd::relations::injective_on(f, a));
    lemma_map_size(a, a.map(f), f);
    assert forall|y: int| #[trigger] a.map(f).contains(y) implies a.contains(y) by {
        let j = choose|j: int| a.contains(j) && f(j) == y;
        lemma_pos_range(t, sigma, j);
    }
    lemma_subset_equality(a.map(f), a);
    assert(a.map(f).contains(x));
    let j = choose|j: int| a.contains(j) && f(j) == x;
    assert(pos(t, sigma, j) == x);
}

/// The sentinel is the first position in the induced order.
pub proof fn lemma_pos_sentinel(t: Seq<int>, sigma: spec_fn(int) -> int)
    requires
        valid_text(t),
    ensures
        pos(t, sigma, t.len() - 1) == 0,
{
    let n = t.len() as int;
    assert forall|k: int| 0 <= k < n implies !#[trigger] ford(t, types_of(t), sigma, k, n - 1, false) by {
        if k != n - 1 {
            assert(t[k] > 0);
        } else {
            lemma_ford_irrefl(t, types_of(t), sigma, k, false);
        }
    }
    lemma_count_none(n, |k: int| ford(t, types_of(t), sigma, k, n - 1, false));
}

/// The predicate "position `k` is an S position holding symbol `c`, not the
/// last one, whose successor sits in slot `i` or later".
pub open spec fn s_done(t: Seq<int>, sigma: spec_fn(int) -> int, c: int, i: int) -> spec_fn(int) -> bool {
    |k: int| t[k] == c && types_of(t)[k] == S && k < t.len() - 1 && pos(t, sigma, k + 1) >= i
}

/// A symbol above the sentinel's has a bucket that starts after slot 0.
pub proof fn lemma_bstart_positive(t: Seq<int>, c: int)
    requires
        valid_text(t),
        c >= 1,
    ensures
        bstart(t, c) >= 1,
{
    let n = t.len() as int;
    lemma_count_none(n, |k: int| false);
    lemma_count_strict(n, |k: int| false, lt_sym(t, c), n - 1);
}

/// The final slot of an S position (not the last one): its bucket's last slot
/// minus the number of S positions of the same symbol whose successors sit in
/// later slots.
pub proof fn lemma_pos_s_formula(t: Seq<int>, sigma: spec_fn(int) -> int, j: int)
    requires
        valid_text(t),
        sigma_injective(types_of(t), sigma),
        0 <= j < t.len() - 1,
        types_of(t)[j] == S,
    ensures
        pos(t, sigma, j) == bstart(t, t[j] + 1) - 1 - count(
            t.len() as int,
            s_done(t, sigma, t[j], pos(t, sigma, j + 1) + 1),
        ),
{
    let n = t.len() as int;
    let c = t[j];
    let ty = types_of(t);
    lemma_types_of_binary(t);
    let bl = |k: int| ford(t, ty, sigma, k, j, false);
    let ab = |k: int| ford(t, ty, sigma, j, k, false);
    // The positions not below j are j itself and those above it.
    lemma_count_complement(n, bl);
    assert forall|k: int| 0 <= k < n implies (!#[trigger] bl(k)) == (ab(k) || k == j) by {
        if k == j {
            lemma_ford_irrefl(t, ty, sigma, j, false);
        } else {
            lemma_ford_total(t, sigma, k, j, false);
            if bl(k) {
                crate::theory::order::lemma_ford_asym(t, ty, sigma, k, j, false);
            }
        }
    }
    lemma_ford_irrefl(t, ty, sigma, j, false);
    lemma_count_add_point(n, |k: int| !bl(k), ab, j);
    // Above j: every larger symbol, and the S positions of symbol c whose
    // successors come later.
    lemma_count_split(n, ab, lt_sym(t, c + 1));
    lemma_count_complement(n, lt_sym(t, c + 1));
    lemma_count_ext(n, |k: int| ab(k) && !lt_sym(t, c + 1)(k), |k: int| !lt_sym(t, c + 1)(k));
    assert forall|k: int| 0 <= k < n implies (ab(k) && lt_sym(t, c + 1)(k)) == #[trigger] s_done(
        t,
        sigma,
        c,
        pos(t, sigma, j + 1) + 1,
    )(k) by {
        lemma_type_facts(t, k);
        lemma_type_facts(t, j);
        if k == j {
        } else if t[k] == c && ty[k] == S {
            lemma_equal_not_last(t, j, k);
            lemma_pos_order(t, sigma, j + 1, k + 1);
        }
    }
    lemma_count_ext(n, |k: int| ab(k) && lt_sym(t, c + 1)(k), s_done(t, sigma, c, pos(t, sigma, j + 1) + 1));
}

} // verus!

verus! {

/// What slot `x` may hold during the S pass: nothing, a seed in its seed slot,
/// or a position in its final slot.
pub open spec fn s_slot_ok(t: Seq<int>, sigma: spec_fn(int) -> int, v: usize, x: int) -> bool {
    ||| v == empty_slot()
    ||| (v < t.len() && is_lms_at(types_of(t), v as int) && seedpos(t, sigma, v as int) == x)
    ||| (v < t.len() && pos(t, sigma, v as int) == x)
}

/// The fixed facts the S pass relies on: a valid text of at least two
/// symbols, seed ranks that tell leftmost S positions apart, and bucket ends
/// for every symbol of the text.
pub open spec fn s_ctx(t: Seq<int>, sigma: spec_fn(int) -> int, tails0: Seq<usize>) -> bool {
    &&& valid_text(t)
    &&& t.len() >= 2
    &&& sigma_injective(types_of(t), sigma)
    &&& forall|k: int| 0 <= k < t.len() ==> 0 <= #[trigger] t[k] < tails0.len()
    &&& forall|k: int| 0 <= k < t.len() ==> tails0[#[trigger] t[k]] == bstart(t, t[k] + 1) - 1
}

/// The state of the S pass once the slots from `i` on have been scanned.
pub open spec fn s_inv(
    t: Seq<int>,
    sigma: spec_fn(int) -> int,
    sa: Seq<usize>,
    tails: Seq<usize>,
    tails0: Seq<usize>,
    i: int,
) -> bool {
    &&& sa.len() == t.len()
    &&& tails.len() == tails0.len()
    &&& sa[0] == t.len() - 1
    &&& forall|j: int| 0 <= j < t.len() && types_of(t)[j] == L ==> sa[#[trigger] pos(t, sigma, j)] == j
    &&& forall|j: int|
        0 <= j < t.len() - 1 && types_of(t)[j] == S && pos(t, sigma, j + 1) >= i ==> sa[#[trigger] pos(
            t,
            sigma,
            j,
        )] == j
    &&& forall|x: int| 0 <= x < t.len() ==> s_slot_ok(t, sigma, #[trigger] sa[x], x)
    &&& forall|c: int|
        0 <= c < tails.len() ==> #[trigger] tails[c] == tails0[c] - count(t.len() as int, s_done(t, sigma, c, i))
}

/// Before slot `i - 1` is scanned, it already holds its final occupant.
pub proof fn lemma_s_occupant(
    t: Seq<int>,
    sigma: spec_fn(int) -> int,
    sa: Seq<usize>,
    tails: Seq<usize>,
    tails0: Seq<usize>,
    i: int,
)
    requires
        s_ctx(t, sigma, tails0),
        s_inv(t, sigma, sa, tails, tails0, i),
        1 <= i <= t.len(),
    ensures
        sa[i - 1] < t.len(),
        pos(t, sigma, sa[i - 1] as int) == i - 1,
{
    let n = t.len() as int;
    lemma_pos_onto(t, sigma, i - 1);
    let o = choose|j: int| 0 <= j < n && #[trigger] pos(t, sigma, j) == i - 1;
    lemma_type_facts(t, o);
    if o == n - 1 {
        lemma_pos_sentinel(t, sigma);
    } else if types_of(t)[o] == S {
        lemma_s_succ_after(t, sigma, o);
        lemma_pos_mono(t, sigma, o, o + 1);
    }
    assert(sa[pos(t, sigma, o)] == o);
}

/// Only the predecessor of the occupant of slot `i - 1` has its successor
/// there.
pub proof fn lemma_s_unique_pred(
    t: Seq<int>,
    sigma: spec_fn(int) -> int,
    v: int,
    i: int,
)
    requires
        valid_text(t),
        sigma_injective(types_of(t), sigma),
        0 <= v < t.len(),
        pos(t, sigma, v) == i - 1,
    ensures
        forall|k: int|
            0 <= k < t.len() - 1 && #[trigger] pos(t, sigma, k + 1) == i - 1 ==> v == k + 1,
{
    assert forall|k: int| 0 <= k < t.len() - 1 && #[trigger] pos(t, sigma, k + 1) == i - 1 implies v == k + 1 by {
        if v != k + 1 {
            lemma_pos_order(t, sigma, v, k + 1);
        }
    }
}

/// A step of the S pass that writes nothing keeps the invariant.
proof fn lemma_s_step_skip(
    t: Seq<int>,
    sigma: spec_fn(int) -> int,
    sa: Seq<usize>,
    tails: Seq<usize>,
    tails0: Seq<usize>,
    i: int,
)
    requires
        s_ctx(t, sigma, tails0),
        s_inv(t, sigma, sa, tails, tails0, i),
        1 <= i <= t.len(),
        sa[i - 1] < t.len(),
        pos(t, sigma, sa[i - 1] as int) == i - 1,
        sa[i - 1] == 0 || types_of(t)[sa[i - 1] - 1] != S,
    ensures
        s_inv(t, sigma, sa, tails, tails0, i - 1),
{
    let n = t.len() as int;
    let ty = types_of(t);
    let v = sa[i - 1];
    lemma_s_unique_pred(t, sigma, v as int, i);
    assert forall|c: int| 0 <= c < tails.len() implies #[trigger] tails[c] == tails0[c] - count(
        n,
        s_done(t, sigma, c, i - 1),
    ) by {
        assert forall|k: int| 0 <= k < n implies #[trigger] s_done(t, sigma, c, i - 1)(k) == s_done(
            t,
            sigma,
            c,
            i,
        )(k) by {
            if 0 <= k < n - 1 && ty[k] == S && pos(t, sigma, k + 1) == i - 1 {
                assert(v == k + 1);
            }
        }
        lemma_count_ext(n, s_done(t, sigma, c, i - 1), s_done(t, sigma, c, i));
    }
    assert forall|j: int|
        0 <= j < n - 1 && ty[j] == S && pos(t, sigma, j + 1) >= i - 1 implies sa[#[trigger] pos(
        t,
        sigma,
        j,
    )] == j by {
        if pos(t, sigma, j + 1) == i - 1 {
            assert(v == j + 1);
        }
    }
}

/// The S pass writes the predecessor `j` of the scanned position to its
/// final slot, which is the current end of its bucket.
proof fn lemma_s_write_slot(
    t: Seq<int>,
    sigma: spec_fn(int) -> int,
    sa: Seq<usize>,
    tails: Seq<usize>,
    tails0: Seq<usize>,
    i: int,
    j: int,
)
    requires
        s_ctx(t, sigma, tails0),
        s_inv(t, sigma, sa, tails, tails0, i),
        1 <= i <= t.len(),
        0 <= j < t.len() - 1,
        pos(t, sigma, j + 1) == i - 1,
        types_of(t)[j] == S,
    ensures
        1 <= t[j] < tails.len(),
        tails[t[j]] == pos(t, sigma, j),
        0 < pos(t, sigma, j) < t.len(),
{
    let c = t[j];
    assert(c >= 1);
    lemma_pos_s_formula(t, sigma, j);
    lemma_pos_range(t, sigma, j);
    lemma_pos_bucket(t, sigma, j);
    lemma_bstart_positive(t, c);
}

/// Writing `j` to its final slot keeps every other position's slot.
proof fn lemma_s_write_slots(
    t: Seq<int>,
    sigma: spec_fn(int) -> int,
    sa: Seq<usize>,
    tails: Seq<usize>,
    tails0: Seq<usize>,
    i: int,
    j: int,
)
    requires
        s_ctx(t, sigma, tails0),
        s_inv(t, sigma, sa, tails, tails0, i),
        1 <= i <= t.len(),
        0 <= j < t.len() - 1,
        pos(t, sigma, j + 1) == i - 1,
        types_of(t)[j] == S,
        0 < pos(t, sigma, j) < t.len(),
    ensures
        ({
            let sa2 = sa.update(pos(t, sigma, j), j as usize);
            &&& sa2.len() == t.len()
            &&& sa2[0] == t.len() - 1
            &&& forall|jj: int|
                0 <= jj < t.len() && types_of(t)[jj] == L ==> sa2[#[trigger] pos(t, sigma, jj)] == jj
            &&& forall|jj: int|
                0 <= jj < t.len() - 1 && types_of(t)[jj] == S && pos(t, sigma, jj + 1) >= i - 1
                    ==> sa2[#[trigger] pos(t, sigma, jj)] == jj
            &&& forall|x: int| 0 <= x < t.len() ==> s_slot_ok(t, sigma, #[trigger] sa2[x], x)
        }),
{
    let n = t.len() as int;
    let ty = types_of(t);
    let sa2 = sa.update(pos(t, sigma, j), j as usize);
    lemma_s_unique_pred(t, sigma, j + 1, i);
    assert forall|jj: int| 0 <= jj < n && ty[jj] == L implies sa2[#[trigger] pos(t, sigma, jj)] == jj by {
        lemma_pos_range(t, sigma, jj);
        lemma_pos_order(t, sigma, jj, j);
    }
    assert forall|jj: int|
        0 <= jj < n - 1 && ty[jj] == S && pos(t, sigma, jj + 1) >= i - 1 implies sa2[#[trigger] pos(
        t,
        sigma,
        jj,
    )] == jj by {
        lemma_pos_range(t, sigma, jj);
        if jj != j {
            lemma_pos_order(t, sigma, jj, j);
            assert(pos(t, sigma, jj + 1) != i - 1);
            assert(sa[pos(t, sigma, jj)] == jj);
        }
    }
    assert forall|x: int| 0 <= x < n implies s_slot_ok(t, sigma, #[trigger] sa2[x], x) by {
        assert(s_slot_ok(t, sigma, sa[x], x));
    }
}

/// Writing `j` moves the end of its bucket one slot to the left.
proof fn lemma_s_write_tails(
    t: Seq<int>,
    sigma: spec_fn(int) -> int,
    sa: Seq<usize>,
    tails: Seq<usize>,
    tails0: Seq<usize>,
    i: int,
    j: int,
)
    requires
        s_ctx(t, sigma, tails0),
        s_inv(t, sigma, sa, tails, tails0, i),
        1 <= i <= t.len(),
        0 <= j < t.len() - 1,
        pos(t, sigma, j + 1) == i - 1,
        types_of(t)[j] == S,
        0 <= t[j] < tails.len(),
        tails[t[j]] > 0,
    ensures
        ({
            let tails2 = tails.update(t[j], (tails[t[j]] - 1) as usize);
            forall|cc: int|
                0 <= cc < tails2.len() ==> #[trigger] tails2[cc] == tails0[cc] - count(
                    t.len() as int,
                    s_done(t, sigma, cc, i - 1),
                )
        }),
{
    let n = t.len() as int;
    let ty = types_of(t);
    let c = t[j];
    let tails2 = tails.update(c, (tails[c] - 1) as usize);
    lemma_s_unique_pred(t, sigma, j + 1, i);
    assert forall|cc: int| 0 <= cc < tails2.len() implies #[trigger] tails2[cc] == tails0[cc] - count(
        n,
        s_done(t, sigma, cc, i - 1),
    ) by {
        assert forall|k: int| 0 <= k < n implies #[trigger] s_done(t, sigma, cc, i - 1)(k) == (s_done(
            t,
            sigma,
            cc,
            i,
        )(k) || (cc == c && k == j)) by {
            if 0 <= k < n - 1 && pos(t, sigma, k + 1) == i - 1 {
                assert(j + 1 == k + 1);
            }
        }
        if cc == c {
            lemma_count_add_point(n, s_done(t, sigma, cc, i - 1), s_done(t, sigma, cc, i), j);
        } else {
            lemma_count_ext(n, s_done(t, sigma, cc, i - 1), s_done(t, sigma, cc, i));
        }
    }
}

/// A step of the S pass that writes the predecessor of the scanned position
/// keeps the invariant and stays in bounds.
#[verifier::rlimit(60)]
#[verifier::spinoff_prover]
proof fn lemma_s_step_write(
    t: Seq<int>,
    sigma: spec_fn(int) -> int,
    sa: Seq<usize>,
    tails: Seq<usize>,
    tails0: Seq<usize>,
    i: int,
)
    requires
        s_ctx(t, sigma, tails0),
        s_inv(t, sigma, sa, tails, tails0, i),
        1 <= i <= t.len(),
        sa[i - 1] < t.len(),
        pos(t, sigma, sa[i - 1] as int) == i - 1,
        sa[i - 1] != 0,
        types_of(t)[sa[i - 1] - 1] == S,
    ensures
        s_step_ok(t, types_of(t), sa, tails, i - 1),
        s_inv(
            t,
            sigma,
            s_step(t, types_of(t), sa, tails, i - 1).0,
            s_step(t, types_of(t), sa, tails, i - 1).1,
            tails0,
            i - 1,
        ),
{
    let n = t.len() as int;
    let ty = types_of(t);
    let v = sa[i - 1];
    let j = v - 1;
    lemma_pos_sentinel(t, sigma);
    assert(j < n - 1);
    lemma_s_write_slot(t, sigma, sa, tails, tails0, i, j);
    lemma_s_write_slots(t, sigma, sa, tails, tails0, i, j);
    lemma_s_write_tails(t, sigma, sa, tails, tails0, i, j);
    let st = s_step(t, ty, sa, tails, i - 1);
    assert(st.0 == sa.update(pos(t, sigma, j), j as usize));
    assert(st.1 == tails.update(t[j], (tails[t[j]] - 1) as usize));
}

/// One step of the S pass keeps its invariant and stays in bounds.
pub proof fn lemma_s_step(
    t: Seq<int>,
    sigma: spec_fn(int) -> int,
    sa: Seq<usize>,
    tails: Seq<usize>,
    tails0: Seq<usize>,
    i: int,
)
    requires
        s_ctx(t, sigma, tails0),
        s_inv(t, sigma, sa, tails, tails0, i),
        1 <= i <= t.len(),
    ensures
        s_step_ok(t, types_of(t), sa, tails, i - 1),
        s_inv(
            t,
            sigma,
            s_step(t, types_of(t), sa, tails, i - 1).0,
            s_step(t, types_of(t), sa, tails, i - 1).1,
            tails0,
            i - 1,
        ),
{
    lemma_types_of_binary(t);
    lemma_s_occupant(t, sigma, sa, tails, tails0, i);
    let v = sa[i - 1];
    if v == 0 || types_of(t)[v - 1] != S {
        lemma_s_step_skip(t, sigma, sa, tails, tails0, i);
    } else {
        lemma_s_step_write(t, sigma, sa, tails, tails0, i);
    }
}

/// The whole S pass stays in bounds and ends with its invariant at slot 0.
pub proof fn lemma_s_run(
    t: Seq<int>,
    sigma: spec_fn(int) -> int,
    sa: Seq<usize>,
    tails: Seq<usize>,
    tails0: Seq<usize>,
    i: int,
)
    requires
        s_ctx(t, sigma, tails0),
        s_inv(t, sigma, sa, tails, tails0, i),
        0 <= i <= t.len(),
    ensures
        s_safe(t, types_of(t), sa, tails, i),
        s_inv(
            t,
            sigma,
            s_run(t, types_of(t), sa, tails, i).0,
            s_run(t, types_of(t), sa, tails, i).1,
            tails0,
            0,
        ),
    decreases i,
{
    if i > 0 {
        lemma_s_step(t, sigma, sa, tails, tails0, i);
        let st = s_step(t, types_of(t), sa, tails, i - 1);
        lemma_s_run(t, sigma, st.0, st.1, tails0, i - 1);
    }
}

/// Every position in its final slot: the array lists the positions in the
/// induced order.
pub open spec fn induced(t: Seq<int>, sigma: spec_fn(int) -> int, sa: Seq<usize>) -> bool {
    &&& sa.len() == t.len()
    &&& forall|j: int| 0 <= j < t.len() ==> sa[#[trigger] pos(t, sigma, j)] == j
}

/// The S pass, run after the L pass, stays in bounds and puts every position
/// in its final slot.
pub proof fn lemma_s_pass(t: Seq<int>, sigma: spec_fn(int) -> int, sa: Seq<usize>, tails0: Seq<usize>)
    requires
        s_ctx(t, sigma, tails0),
        l_result(t, sigma, sa),
    ensures
        s_safe(t, types_of(t), sa, tails0, t.len() as int),
        induced(t, sigma, s_run(t, types_of(t), sa, tails0, t.len() as int).0),
{
    let n = t.len() as int;
    let ty = types_of(t);
    lemma_pos_sentinel(t, sigma);
    // The sentinel is a seed whose seed slot is slot 0.
    lemma_type_facts(t, n - 2);
    assert(is_lms_at(ty, n - 1));
    assert forall|x: int| 0 <= x < n implies !#[trigger] lms_after(t, sigma, n - 1)(x) by {
        if x != n - 1 {
            assert(t[x] > 0);
        }
    }
    lemma_count_none(n, lms_after(t, sigma, n - 1));
    assert forall|k: int| 0 <= k < n implies !#[trigger] lt_sym(t, 0)(k) by {
        if k != n - 1 {
            assert(t[k] > 0);
        }
    }
    lemma_count_none(n, lt_sym(t, 0));
    lemma_count_add_point(n, lt_sym(t, 1), lt_sym(t, 0), n - 1);
    assert(seedpos(t, sigma, n - 1) == 0);
    assert forall|j: int|
        0 <= j < n - 1 && ty[j] == S && pos(t, sigma, j + 1) >= n implies sa[#[trigger] pos(t, sigma, j)] == j by {
        lemma_pos_range(t, sigma, j + 1);
    }
    assert forall|x: int| 0 <= x < n implies s_slot_ok(t, sigma, #[trigger] sa[x], x) by {
    }
    assert forall|c: int| 0 <= c < tails0.len() implies #[trigger] tails0[c] == tails0[c] - count(
        n,
        s_done(t, sigma, c, n),
    ) by {
        assert forall|k: int| 0 <= k < n implies !#[trigger] s_done(t, sigma, c, n)(k) by {
            if k < n - 1 {
                lemma_pos_range(t, sigma, k + 1);
            }
        }
        lemma_count_none(n, s_done(t, sigma, c, n));
    }
    lemma_s_run(t, sigma, sa, tails0, tails0, n);
    let sa2 = s_run(t, ty, sa, tails0, n).0;
    assert forall|j: int| 0 <= j < n implies sa2[#[trigger] pos(t, sigma, j)] == j by {
        lemma_type_facts(t, j);
        if j < n - 1 && ty[j] == S {
            lemma_pos_range(t, sigma, j + 1);
        }
    }
}

} // verus!
