//! What the L pass of induced sorting achieves: starting from the seeds at the
//! ends of their buckets, every L position lands in its final slot.
use vstd::prelude::*;
use crate::theory::count::{
    count, lemma_count_ext, lemma_count_split, lemma_count_add_point, lemma_count_none,
};
use crate::types::{S, L, types_of, is_lms_at};
use crate::theory::order::{
    valid_text, ford, sigma_injective, lemma_ford_irrefl, lemma_type_facts,
    lemma_types_of_binary,
};
use crate::theory::rank::{
    lt_sym, bstart, pos, seedpos, posl, l_or_lms, lemma_pos_range, lemma_pos_order,
    lemma_pos_bucket, lemma_pos_l_part, lemma_seedpos_range, lemma_posl_order,
    lemma_l_succ_before, lemma_bstart_mono,
};
use crate::induce::{empty_slot, l_step, l_step_ok, l_run, l_safe};

verus! {

/// The predicate "position `k` is an L position holding symbol `c` whose
/// successor sits in a slot below `i` during the L pass".
pub open spec fn l_done(t: Seq<int>, sigma: spec_fn(int) -> int, c: int, i: int) -> spec_fn(int) -> bool {
    |k: int| t[k] == c && types_of(t)[k] == L && posl(t, sigma, k + 1) < i
}

/// What slot `x` may hold during the L pass, before slot `i` is scanned:
/// nothing, a seed in its seed slot, or an L position already induced.
pub open spec fn l_slot_ok(t: Seq<int>, sigma: spec_fn(int) -> int, v: usize, x: int, i: int) -> bool {
    ||| v == empty_slot()
    ||| (v < t.len() && is_lms_at(types_of(t), v as int) && seedpos(t, sigma, v as int) == x)
    ||| (v < t.len() && types_of(t)[v as int] == L && posl(t, sigma, v + 1) < i && pos(t, sigma, v as int) == x)
}

/// The fixed facts the L pass relies on: a valid text, seed ranks that tell
/// leftmost S positions apart, and bucket heads for every symbol of the text.
pub open spec fn l_ctx(t: Seq<int>, sigma: spec_fn(int) -> int, heads0: Seq<usize>) -> bool {
    &&& valid_text(t)
    &&& t.len() <= usize::MAX
    &&& sigma_injective(types_of(t), sigma)
    &&& forall|k: int| 0 <= k < t.len() ==> 0 <= #[trigger] t[k] < heads0.len()
    &&& forall|k: int| 0 <= k < t.len() ==> heads0[#[trigger] t[k]] == bstart(t, t[k])
}

/// The state of the L pass before slot `i` is scanned.
pub open spec fn l_inv(
    t: Seq<int>,
    sigma: spec_fn(int) -> int,
    sa: Seq<usize>,
    heads: Seq<usize>,
    heads0: Seq<usize>,
    i: int,
) -> bool {
    &&& sa.len() == t.len()
    &&& heads.len() == heads0.len()
    &&& forall|p: int| #[trigger] is_lms_at(types_of(t), p) ==> sa[seedpos(t, sigma, p)] == p
    &&& forall|j: int|
        0 <= j < t.len() && types_of(t)[j] == L && posl(t, sigma, j + 1) < i ==> sa[#[trigger] pos(
            t,
            sigma,
            j,
        )] == j
    &&& forall|x: int| 0 <= x < t.len() ==> l_slot_ok(t, sigma, #[trigger] sa[x], x, i)
    &&& forall|c: int|
        0 <= c < heads.len() ==> #[trigger] heads[c] == heads0[c] + count(t.len() as int, l_done(t, sigma, c, i))
}

/// The seeds in place and every other slot empty.
pub open spec fn seeds_placed(t: Seq<int>, sigma: spec_fn(int) -> int, sa: Seq<usize>) -> bool {
    &&& sa.len() == t.len()
    &&& forall|p: int| #[trigger] is_lms_at(types_of(t), p) ==> sa[seedpos(t, sigma, p)] == p
    &&& forall|x: int|
        0 <= x < t.len() ==> {
            let v = #[trigger] sa[x];
            v == empty_slot() || (v < t.len() && is_lms_at(types_of(t), v as int) && seedpos(t, sigma, v as int)
                == x)
        }
}

/// Slots during the L pass are in range.
pub proof fn lemma_posl_range(t: Seq<int>, sigma: spec_fn(int) -> int, x: int)
    requires
        valid_text(t),
        l_or_lms(t, x),
    ensures
        0 <= posl(t, sigma, x) < t.len(),
{
    lemma_type_facts(t, x);
    if types_of(t)[x] == L {
        lemma_pos_range(t, sigma, x);
    } else {
        lemma_seedpos_range(t, sigma, x);
        lemma_bstart_mono(t, 0, t[x] + 1);
    }
}

/// The final slot of an L position: its bucket's head plus the number of L
/// positions of the same symbol whose successors sit in earlier slots.
pub proof fn lemma_pos_l_formula(t: Seq<int>, sigma: spec_fn(int) -> int, j: int)
    requires
        valid_text(t),
        sigma_injective(types_of(t), sigma),
        0 <= j < t.len(),
        types_of(t)[j] == L,
    ensures
        pos(t, sigma, j) == bstart(t, t[j]) + count(
            t.len() as int,
            l_done(t, sigma, t[j], posl(t, sigma, j + 1)),
        ),
{
    let n = t.len() as int;
    let c = t[j];
    let ty = types_of(t);
    let bl = |k: int| ford(t, ty, sigma, k, j, false);
    lemma_count_split(n, bl, lt_sym(t, c));
    lemma_count_ext(n, |k: int| bl(k) && lt_sym(t, c)(k), lt_sym(t, c));
    lemma_l_succ_before(t, sigma, j);
    assert forall|k: int| 0 <= k < n implies (bl(k) && !lt_sym(t, c)(k)) == #[trigger] l_done(
        t,
        sigma,
        c,
        posl(t, sigma, j + 1),
    )(k) by {
        lemma_type_facts(t, k);
        if k == j {
            lemma_ford_irrefl(t, ty, sigma, j, false);
        } else if t[k] == c && ty[k] == L {
            lemma_l_succ_before(t, sigma, k);
            lemma_posl_order(t, sigma, k + 1, j + 1);
        }
    }
    lemma_count_ext(n, |k: int| bl(k) && !lt_sym(t, c)(k), l_done(t, sigma, c, posl(t, sigma, j + 1)));
}

/// One step of the L pass keeps its invariant and stays in bounds.
pub proof fn lemma_l_step(
    t: Seq<int>,
    sigma: spec_fn(int) -> int,
    sa: Seq<usize>,
    heads: Seq<usize>,
    heads0: Seq<usize>,
    i: int,
)
    requires
        l_ctx(t, sigma, heads0),
        l_inv(t, sigma, sa, heads, heads0, i),
        0 <= i < t.len(),
    ensures
        l_step_ok(t, types_of(t), sa, heads, i),
        l_inv(
            t,
            sigma,
            l_step(t, types_of(t), sa, heads, i).0,
            l_step(t, types_of(t), sa, heads, i).1,
            heads0,
            i + 1,
        ),
{
    let n = t.len() as int;
    let ty = types_of(t);
    lemma_types_of_binary(t);
    let v = sa[i];
    let st = l_step(t, ty, sa, heads, i);
    assert(l_slot_ok(t, sigma, sa[i], i, i));
    // No L position other than the predecessor of the scanned one has its
    // successor in slot i.
    assert forall|k: int|
        0 <= k < n && ty[k] == L && posl(t, sigma, k + 1) == i implies v == k + 1 by {
        lemma_l_succ_before(t, sigma, k);
        lemma_type_facts(t, k + 1);
        if ty[k + 1] == L {
            lemma_l_succ_before(t, sigma, k + 1);
            lemma_posl_order(t, sigma, k + 2, k + 1);
            assert(sa[pos(t, sigma, k + 1)] == k + 1);
        } else {
            assert(is_lms_at(ty, k + 1));
        }
    }
    if v == empty_slot() || v == 0 || ty[v - 1] != L {
        assert forall|c: int| 0 <= c < heads.len() implies #[trigger] heads[c] == heads0[c] + count(
            n,
            l_done(t, sigma, c, i + 1),
        ) by {
            lemma_count_ext(n, l_done(t, sigma, c, i + 1), l_done(t, sigma, c, i));
        }
        assert forall|x: int| 0 <= x < n implies l_slot_ok(t, sigma, #[trigger] sa[x], x, i + 1) by {
            assert(l_slot_ok(t, sigma, sa[x], x, i));
        }
    } else {
        let j = v - 1;
        let c = t[j];
        lemma_type_facts(t, v as int);
        assert(posl(t, sigma, v as int) == i);
        lemma_pos_l_formula(t, sigma, j);
        assert(heads[c] == pos(t, sigma, j));
        lemma_pos_range(t, sigma, j);
        lemma_pos_bucket(t, sigma, j);
        lemma_pos_l_part(t, sigma, j);
        let sa2 = st.0;
        let heads2 = st.1;
        assert(sa2 == sa.update(pos(t, sigma, j), j as usize));
        // Seeds stay in place.
        assert forall|p: int| #[trigger] is_lms_at(ty, p) implies sa2[seedpos(t, sigma, p)] == p by {
            lemma_seedpos_range(t, sigma, p);
            lemma_posl_range(t, sigma, p);
            if t[p] < c {
                lemma_bstart_mono(t, t[p] + 1, c);
            } else if t[p] > c {
                lemma_bstart_mono(t, c + 1, t[p]);
            }
            assert(seedpos(t, sigma, p) != pos(t, sigma, j));
        }
        assert forall|jj: int|
            0 <= jj < n && ty[jj] == L && posl(t, sigma, jj + 1) < i + 1 implies sa2[#[trigger] pos(
            t,
            sigma,
            jj,
        )] == jj by {
            lemma_pos_range(t, sigma, jj);
            if jj != j {
                lemma_pos_order(t, sigma, jj, j);
                if posl(t, sigma, jj + 1) == i {
                    assert(v == jj + 1);
                }
                assert(sa[pos(t, sigma, jj)] == jj);
            }
        }
        assert forall|x: int| 0 <= x < n implies l_slot_ok(t, sigma, #[trigger] sa2[x], x, i + 1) by {
            assert(l_slot_ok(t, sigma, sa[x], x, i));
        }
        assert forall|cc: int| 0 <= cc < heads2.len() implies #[trigger] heads2[cc] == heads0[cc] + count(
            n,
            l_done(t, sigma, cc, i + 1),
        ) by {
            if cc == c {
                lemma_count_add_point(n, l_done(t, sigma, cc, i + 1), l_done(t, sigma, cc, i), j);
            } else {
                lemma_count_ext(n, l_done(t, sigma, cc, i + 1), l_done(t, sigma, cc, i));
            }
        }
    }
}

} // verus!

verus! {

/// The whole L pass stays in bounds and ends with its invariant at the end of
/// the array.
pub proof fn lemma_l_run(
    t: Seq<int>,
    sigma: spec_fn(int) -> int,
    sa: Seq<usize>,
    heads: Seq<usize>,
    heads0: Seq<usize>,
    i: int,
)
    requires
        l_ctx(t, sigma, heads0),
        l_inv(t, sigma, sa, heads, heads0, i),
        0 <= i <= t.len(),
    ensures
        l_safe(t, types_of(t), sa, heads, i),
        l_inv(
            t,
            sigma,
            l_run(t, types_of(t), sa, heads, i).0,
            l_run(t, types_of(t), sa, heads, i).1,
            heads0,
            t.len() as int,
        ),
    decreases t.len() - i,
{
    if i < t.len() {
        lemma_l_step(t, sigma, sa, heads, heads0, i);
        let st = l_step(t, types_of(t), sa, heads, i);
        lemma_l_run(t, sigma, st.0, st.1, heads0, i + 1);
    }
}

/// The L pass starts from the seeds in place with the bucket heads.
pub proof fn lemma_l_start(t: Seq<int>, sigma: spec_fn(int) -> int, sa: Seq<usize>, heads0: Seq<usize>)
    requires
        l_ctx(t, sigma, heads0),
        seeds_placed(t, sigma, sa),
    ensures
        l_inv(t, sigma, sa, heads0, heads0, 0),
{
    let n = t.len() as int;
    assert forall|j: int|
        0 <= j < n && types_of(t)[j] == L && posl(t, sigma, j + 1) < 0 implies sa[#[trigger] pos(
        t,
        sigma,
        j,
    )] == j by {
        lemma_l_succ_before(t, sigma, j);
        lemma_posl_range(t, sigma, j + 1);
    }
    assert forall|c: int| 0 <= c < heads0.len() implies #[trigger] heads0[c] == heads0[c] + count(
        n,
        l_done(t, sigma, c, 0),
    ) by {
        assert forall|k: int| 0 <= k < n implies !#[trigger] l_done(t, sigma, c, 0)(k) by {
            if types_of(t)[k] == L {
                lemma_l_succ_before(t, sigma, k);
                lemma_posl_range(t, sigma, k + 1);
            }
        }
        lemma_count_none(n, l_done(t, sigma, c, 0));
    }
    assert forall|x: int| 0 <= x < n implies l_slot_ok(t, sigma, #[trigger] sa[x], x, 0) by {
    }
}

/// After the L pass: the seeds are in place, every L position is in its final
/// slot, and every other slot is empty.
pub open spec fn l_result(t: Seq<int>, sigma: spec_fn(int) -> int, sa: Seq<usize>) -> bool {
    &&& sa.len() == t.len()
    &&& forall|p: int| #[trigger] is_lms_at(types_of(t), p) ==> sa[seedpos(t, sigma, p)] == p
    &&& forall|j: int| 0 <= j < t.len() && types_of(t)[j] == L ==> sa[#[trigger] pos(t, sigma, j)] == j
    &&& forall|x: int|
        0 <= x < t.len() ==> {
            let v = #[trigger] sa[x];
            ||| v == empty_slot()
            ||| (v < t.len() && is_lms_at(types_of(t), v as int) && seedpos(t, sigma, v as int) == x)
            ||| (v < t.len() && types_of(t)[v as int] == L && pos(t, sigma, v as int) == x)
        }
}

/// The L pass, run on the seeds in place, stays in bounds and puts every L
/// position in its final slot.
pub proof fn lemma_l_pass(t: Seq<int>, sigma: spec_fn(int) -> int, sa: Seq<usize>, heads0: Seq<usize>)
    requires
        l_ctx(t, sigma, heads0),
        seeds_placed(t, sigma, sa),
    ensures
        l_safe(t, types_of(t), sa, heads0, 0),
        l_result(t, sigma, l_run(t, types_of(t), sa, heads0, 0).0),
{
    let n = t.len() as int;
    lemma_l_start(t, sigma, sa, heads0);
    lemma_l_run(t, sigma, sa, heads0, heads0, 0);
    let sa2 = l_run(t, types_of(t), sa, heads0, 0).0;
    assert forall|j: int| 0 <= j < n && types_of(t)[j] == L implies sa2[#[trigger] pos(t, sigma, j)] == j by {
        lemma_l_succ_before(t, sigma, j);
        lemma_posl_range(t, sigma, j + 1);
    }
    assert forall|x: int| 0 <= x < n implies {
        let v = #[trigger] sa2[x];
        ||| v == empty_slot()
        ||| (v < n && is_lms_at(types_of(t), v as int) && seedpos(t, sigma, v as int) == x)
        ||| (v < n && types_of(t)[v as int] == L && pos(t, sigma, v as int) == x)
    } by {
        assert(l_slot_ok(t, sigma, sa2[x], x, n));
    }
}

} // verus!
