//! What placing the seeds achieves: every leftmost S position of the seed
//! list lands at the end of its bucket, in list order.
use vstd::prelude::*;
use crate::theory::count::{count, lemma_count_ext, lemma_count_add_point, lemma_count_none};
use crate::types::{types_of, is_lms_at};
use crate::theory::order::{valid_text, sigma_injective};
use crate::theory::rank::{
    bstart, seedpos, lms_after, lemma_seedpos_range, lemma_seedpos_order, lemma_bstart_mono,
};
use crate::theory::lpass::seeds_placed;
use crate::induce::{empty_slot, empty_array, place_step, place_step_ok, place_run, place_safe};

verus! {

/// Position `x` occurs in `list`.
pub open spec fn in_list(list: Seq<usize>, x: int) -> bool {
    exists|m: int| 0 <= m < list.len() && list[m] == x
}

/// A seed list: every leftmost S position exactly once.
pub open spec fn seed_list(t: Seq<int>, list: Seq<usize>) -> bool {
    &&& list.no_duplicates()
    &&& forall|m: int| 0 <= m < list.len() ==> is_lms_at(types_of(t), #[trigger] list[m] as int)
    &&& forall|p: int| #[trigger] is_lms_at(types_of(t), p) ==> in_list(list, p)
}

/// The rank of a position in a list: its index there.
pub open spec fn list_rank(list: Seq<usize>) -> spec_fn(int) -> int {
    |x: int| choose|m: int| 0 <= m < list.len() && list[m] == x
}

pub proof fn lemma_list_rank(list: Seq<usize>, m: int)
    requires
        list.no_duplicates(),
        0 <= m < list.len(),
    ensures
        list_rank(list)(list[m] as int) == m,
{
    let x = list[m] as int;
    assert(exists|k: int| 0 <= k < list.len() && list[k] == x);
    let k = choose|k: int| 0 <= k < list.len() && list[k] == x;
    assert(list_rank(list)(x) == k);
}

/// The ranks of a seed list tell leftmost S positions apart.
pub proof fn lemma_list_rank_injective(t: Seq<int>, list: Seq<usize>)
    requires
        seed_list(t, list),
    ensures
        sigma_injective(types_of(t), list_rank(list)),
        forall|m: int| 0 <= m < list.len() ==> list_rank(list)(#[trigger] list[m] as int) == m,
        forall|p: int|
            #[trigger] is_lms_at(types_of(t), p) ==> 0 <= list_rank(list)(p) < list.len() && list[list_rank(
                list,
            )(p)] == p,
{
    assert forall|m: int| 0 <= m < list.len() implies list_rank(list)(#[trigger] list[m] as int) == m by {
        lemma_list_rank(list, m);
    }
    assert forall|p: int| #[trigger] is_lms_at(types_of(t), p) implies 0 <= list_rank(list)(p) < list.len()
        && list[list_rank(list)(p)] == p by {
        assert(in_list(list, p));
        let m = choose|m: int| 0 <= m < list.len() && list[m] == p;
        lemma_list_rank(list, m);
    }
    assert forall|p: int, q: int|
        is_lms_at(types_of(t), p) && is_lms_at(types_of(t), q) && p != q implies #[trigger] list_rank(list)(p)
        != #[trigger] list_rank(list)(q) by {
    }
}

/// Counting a property of list entries by index or by position gives the
/// same number, for a list without repetitions.
pub proof fn lemma_count_list(list: Seq<usize>, q: spec_fn(int) -> bool, n: int)
    requires
        list.no_duplicates(),
        forall|m: int| 0 <= m < list.len() ==> #[trigger] list[m] < n,
        n >= 0,
    ensures
        count(list.len() as int, |m: int| q(list[m] as int)) == count(
            n,
            |x: int| q(x) && in_list(list, x),
        ),
    decreases list.len(),
{
    if list.len() == 0 {
        lemma_count_none(n, |x: int| q(x) && in_list(list, x));
    } else {
        let l2 = list.drop_last();
        let e = list[list.len() - 1];
        lemma_count_list(l2, q, n);
        lemma_count_ext(list.len() - 1, |m: int| q(list[m] as int), |m: int| q(l2[m] as int));
        assert(!in_list(l2, e as int)) by {
            if in_list(l2, e as int) {
                let k = choose|k: int| 0 <= k < l2.len() && l2[k] == e;
                assert(list[k] == list[list.len() - 1]);
            }
        }
        assert forall|x: int| 0 <= x < n implies (#[trigger] q(x) && in_list(list, x)) == ((q(x)
            && in_list(l2, x)) || (q(e as int) && x == e)) by {
            if in_list(list, x) && x != e {
                let k = choose|k: int| 0 <= k < list.len() && list[k] == x;
                assert(k < list.len() - 1);
                assert(l2[k] == x);
            }
            if in_list(l2, x) {
                let k = choose|k: int| 0 <= k < l2.len() && l2[k] == x;
                assert(list[k] == x);
            }
            if x == e {
                assert(list[list.len() - 1] == x);
            }
        }
        if q(e as int) {
            lemma_count_add_point(
                n,
                |x: int| q(x) && in_list(list, x),
                |x: int| q(x) && in_list(l2, x),
                e as int,
            );
        } else {
            lemma_count_ext(
                n,
                |x: int| q(x) && in_list(list, x),
                |x: int| q(x) && in_list(l2, x),
            );
        }
    }
}

} // verus!

verus! {

/// Distinct seeds get distinct seed slots.
pub proof fn lemma_seedpos_injective(t: Seq<int>, sigma: spec_fn(int) -> int, p: int, q: int)
    requires
        valid_text(t),
        sigma_injective(types_of(t), sigma),
        is_lms_at(types_of(t), p),
        is_lms_at(types_of(t), q),
        p != q,
    ensures
        seedpos(t, sigma, p) != seedpos(t, sigma, q),
{
    lemma_seedpos_range(t, sigma, p);
    lemma_seedpos_range(t, sigma, q);
    if t[p] < t[q] {
        lemma_bstart_mono(t, t[p] + 1, t[q]);
    } else if t[q] < t[p] {
        lemma_bstart_mono(t, t[q] + 1, t[p]);
    } else if sigma(p) < sigma(q) {
        lemma_seedpos_order(t, sigma, p, q);
    } else {
        lemma_seedpos_order(t, sigma, q, p);
    }
}

/// The fixed facts placing the seeds relies on: a valid text, a seed list,
/// and bucket ends for every symbol of the text.
pub open spec fn p_ctx(t: Seq<int>, list: Seq<usize>, tails0: Seq<usize>) -> bool {
    &&& valid_text(t)
    &&& seed_list(t, list)
    &&& forall|k: int| 0 <= k < t.len() ==> 0 <= #[trigger] t[k] < tails0.len()
    &&& forall|k: int| 0 <= k < t.len() ==> tails0[#[trigger] t[k]] == bstart(t, t[k] + 1) - 1
}

/// The predicate "list index `m` is at least `k` and its entry holds symbol
/// `c`".
pub open spec fn placed_sym(t: Seq<int>, list: Seq<usize>, c: int, k: int) -> spec_fn(int) -> bool {
    |m: int| m >= k && t[list[m] as int] == c
}

/// The state of seed placement once the list entries from `k` on are placed.
pub open spec fn p_inv(
    t: Seq<int>,
    list: Seq<usize>,
    sa: Seq<usize>,
    tails: Seq<usize>,
    tails0: Seq<usize>,
    k: int,
) -> bool {
    let sigma = list_rank(list);
    &&& sa.len() == t.len()
    &&& tails.len() == tails0.len()
    &&& forall|m: int| k <= m < list.len() ==> sa[seedpos(t, sigma, #[trigger] list[m] as int)] == list[m]
    &&& forall|x: int|
        0 <= x < t.len() ==> {
            let v = #[trigger] sa[x];
            v == empty_slot() || (v < t.len() && is_lms_at(types_of(t), v as int) && seedpos(t, sigma, v as int)
                == x && sigma(v as int) >= k)
        }
    &&& forall|c: int|
        0 <= c < tails.len() ==> #[trigger] tails[c] == if c == 0 {
            tails0[c] as int
        } else {
            tails0[c] - count(list.len() as int, placed_sym(t, list, c, k))
        }
}

/// The sentinel's seed slot is slot 0, the end of its one-slot bucket.
pub proof fn lemma_sentinel_seed(t: Seq<int>, sigma: spec_fn(int) -> int)
    requires
        valid_text(t),
    ensures
        bstart(t, 1) == 1,
        seedpos(t, sigma, t.len() - 1) == 0,
{
    let n = t.len() as int;
    assert forall|x: int| 0 <= x < n implies !#[trigger] lms_after(t, sigma, n - 1)(x) by {
        if x != n - 1 {
            assert(t[x] > 0);
        }
    }
    lemma_count_none(n, lms_after(t, sigma, n - 1));
    assert forall|k: int| 0 <= k < n implies !#[trigger] crate::theory::rank::lt_sym(t, 0)(k) by {
        if k != n - 1 {
            assert(t[k] > 0);
        }
    }
    lemma_count_none(n, crate::theory::rank::lt_sym(t, 0));
    assert forall|k: int| 0 <= k < n implies #[trigger] crate::theory::rank::lt_sym(t, 1)(k) == (crate::theory::rank::lt_sym(
        t,
        0,
    )(k) || k == n - 1) by {
        if k != n - 1 {
            assert(t[k] > 0);
        }
    }
    lemma_count_add_point(n, crate::theory::rank::lt_sym(t, 1), crate::theory::rank::lt_sym(t, 0), n - 1);
}

/// One step of seed placement keeps its invariant and stays in bounds.
pub proof fn lemma_p_step(
    t: Seq<int>,
    list: Seq<usize>,
    sa: Seq<usize>,
    tails: Seq<usize>,
    tails0: Seq<usize>,
    k: int,
)
    requires
        p_ctx(t, list, tails0),
        p_inv(t, list, sa, tails, tails0, k),
        1 <= k <= list.len(),
    ensures
        place_step_ok(t, list, sa, tails, k - 1),
        p_inv(
            t,
            list,
            place_step(t, list, sa, tails, k - 1).0,
            place_step(t, list, sa, tails, k - 1).1,
            tails0,
            k - 1,
        ),
{
    let n = t.len() as int;
    let ty = types_of(t);
    let sigma = list_rank(list);
    lemma_list_rank_injective(t, list);
    let p = list[k - 1] as int;
    let c = t[p];
    assert(is_lms_at(ty, p));
    assert(sigma(p) == k - 1);
    lemma_seedpos_range(t, sigma, p);
    lemma_bstart_mono(t, 0, c + 1);
    lemma_sentinel_seed(t, sigma);
    // The current end of the bucket is the seed slot of p.
    if c == 0 {
        if p != n - 1 {
            assert(t[p] > 0);
        }
    } else {
        let q = |x: int| sigma(x) > k - 1 && t[x] == c;
        assert forall|m: int| 0 <= m < list.len() implies #[trigger] list[m] < n by {
            assert(is_lms_at(ty, list[m] as int));
        }
        lemma_count_list(list, q, n);
        lemma_count_ext(list.len() as int, placed_sym(t, list, c, k), |m: int| q(list[m] as int));
        assert forall|x: int| 0 <= x < n implies #[trigger] lms_after(t, sigma, p)(x) == (q(x) && in_list(list, x)) by {
            if in_list(list, x) {
                let m = choose|m: int| 0 <= m < list.len() && list[m] == x;
                assert(is_lms_at(ty, list[m] as int));
            }
        }
        lemma_count_ext(n, lms_after(t, sigma, p), |x: int| q(x) && in_list(list, x));
        crate::theory::spass::lemma_bstart_positive(t, c);
    }
    assert(tails[c] == seedpos(t, sigma, p));
    let st = place_step(t, list, sa, tails, k - 1);
    let sa2 = st.0;
    let tails2 = st.1;
    assert(sa2 == sa.update(seedpos(t, sigma, p), p as usize));
    assert forall|m: int| k - 1 <= m < list.len() implies sa2[seedpos(t, sigma, #[trigger] list[m] as int)]
        == list[m] by {
        assert(is_lms_at(ty, list[m] as int));
        lemma_seedpos_range(t, sigma, list[m] as int);
        lemma_bstart_mono(t, 0, t[list[m] as int] + 1);
        if m != k - 1 {
            assert(list[m] != list[k - 1]);
            lemma_seedpos_injective(t, sigma, list[m] as int, p);
            assert(sa[seedpos(t, sigma, list[m] as int)] == list[m]);
        }
    }
    assert forall|x: int| 0 <= x < n implies {
        let v = #[trigger] sa2[x];
        v == empty_slot() || (v < n && is_lms_at(ty, v as int) && seedpos(t, sigma, v as int) == x && sigma(
            v as int,
        ) >= k - 1)
    } by {
        let v = sa[x];
        if x == seedpos(t, sigma, p) {
        } else {
            assert(v == empty_slot() || (v < n && is_lms_at(ty, v as int) && seedpos(t, sigma, v as int) == x
                && sigma(v as int) >= k));
        }
    }
    assert forall|cc: int| 0 <= cc < tails2.len() implies #[trigger] tails2[cc] == if cc == 0 {
        tails0[cc] as int
    } else {
        tails0[cc] - count(list.len() as int, placed_sym(t, list, cc, k - 1))
    } by {
        if cc != 0 {
            if cc == c {
                lemma_count_add_point(
                    list.len() as int,
                    placed_sym(t, list, cc, k - 1),
                    placed_sym(t, list, cc, k),
                    k - 1,
                );
            } else {
                lemma_count_ext(list.len() as int, placed_sym(t, list, cc, k - 1), placed_sym(t, list, cc, k));
            }
        }
    }
}

/// Seed placement over the whole list stays in bounds and puts every seed in
/// its seed slot.
pub proof fn lemma_p_run(
    t: Seq<int>,
    list: Seq<usize>,
    sa: Seq<usize>,
    tails: Seq<usize>,
    tails0: Seq<usize>,
    k: int,
)
    requires
        p_ctx(t, list, tails0),
        p_inv(t, list, sa, tails, tails0, k),
        0 <= k <= list.len(),
    ensures
        place_safe(t, list, sa, tails, k),
        p_inv(t, list, place_run(t, list, sa, tails, k).0, place_run(t, list, sa, tails, k).1, tails0, 0),
    decreases k,
{
    if k > 0 {
        lemma_p_step(t, list, sa, tails, tails0, k);
        let st = place_step(t, list, sa, tails, k - 1);
        lemma_p_run(t, list, st.0, st.1, tails0, k - 1);
    }
}

/// Placing a seed list into an empty array with the bucket ends stays in
/// bounds and puts every seed in its seed slot, leaving the rest empty.
pub proof fn lemma_place(t: Seq<int>, list: Seq<usize>, tails0: Seq<usize>)
    requires
        p_ctx(t, list, tails0),
    ensures
        place_safe(t, list, empty_array(t.len() as int), tails0, list.len() as int),
        seeds_placed(t, list_rank(list), place_run(t, list, empty_array(t.len() as int), tails0, list.len() as int).0),
        sigma_injective(types_of(t), list_rank(list)),
{
    let n = t.len() as int;
    let sa0 = empty_array(n);
    lemma_list_rank_injective(t, list);
    assert forall|c: int| 0 <= c < tails0.len() implies #[trigger] tails0[c] == if c == 0 {
        tails0[c] as int
    } else {
        tails0[c] - count(list.len() as int, placed_sym(t, list, c, list.len() as int))
    } by {
        lemma_count_none(list.len() as int, placed_sym(t, list, c, list.len() as int));
    }
    assert(p_inv(t, list, sa0, tails0, tails0, list.len() as int));
    lemma_p_run(t, list, sa0, tails0, tails0, list.len() as int);
    let sa2 = place_run(t, list, sa0, tails0, list.len() as int).0;
    let sigma = list_rank(list);
    assert forall|p: int| #[trigger] is_lms_at(types_of(t), p) implies sa2[seedpos(t, sigma, p)] == p by {
        let m = sigma(p);
        assert(sa2[seedpos(t, sigma, list[m] as int)] == list[m]);
    }
}

} // verus!
