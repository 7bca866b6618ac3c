//! Ranks of positions under the induced order, and where the buckets lie.
use vstd::prelude::*;
use crate::theory::count::{
    count, lemma_count_lt, lemma_count_strict, lemma_count_mono, lemma_count_bound,
    lemma_count_split, lemma_count_ext,
};
use crate::types::{S, L, types_of, is_lms_at};
use crate::theory::order::{
    valid_text, ford, sigma_injective, lemma_ford_irrefl, lemma_ford_trans, lemma_ford_total,
    lemma_types_of_binary, lemma_type_facts, lemma_equal_not_last,
};

verus! {

/// The predicate "position `k` holds a symbol below `c`".
pub open spec fn lt_sym(t: Seq<int>, c: int) -> spec_fn(int) -> bool {
    |k: int| t[k] < c
}

/// The predicate "position `k` is an L position holding symbol `c`".
pub open spec fn l_sym(t: Seq<int>, c: int) -> spec_fn(int) -> bool {
    |k: int| t[k] == c && types_of(t)[k] == L
}

/// The predicate "position `k` is an S position holding symbol `c`".
pub open spec fn s_sym(t: Seq<int>, c: int) -> spec_fn(int) -> bool {
    |k: int| t[k] == c && types_of(t)[k] == S
}

/// The first slot of the bucket of symbol `c`: the number of positions
/// holding a smaller symbol.
pub open spec fn bstart(t: Seq<int>, c: int) -> int {
    count(t.len() as int, lt_sym(t, c)) as int
}

/// `heads` and `tails` hold the first and the last slot of the bucket of every
/// symbol of `t`.
pub open spec fn bucket_bounds(t: Seq<int>, heads: Seq<usize>, tails: Seq<usize>) -> bool {
    &&& forall|k: int| 0 <= k < t.len() ==> 0 <= #[trigger] t[k] < heads.len()
    &&& forall|k: int| 0 <= k < t.len() ==> 0 <= #[trigger] t[k] < tails.len()
    &&& forall|k: int| 0 <= k < t.len() ==> heads[#[trigger] t[k]] == bstart(t, t[k])
    &&& forall|k: int| 0 <= k < t.len() ==> tails[#[trigger] t[k]] == bstart(t, t[k] + 1) - 1
}

/// The number of L positions holding symbol `c`.
pub open spec fn nl(t: Seq<int>, c: int) -> int {
    count(t.len() as int, l_sym(t, c)) as int
}

/// The predicate "position `k` comes before `j` in the induced order".
pub open spec fn below(t: Seq<int>, sigma: spec_fn(int) -> int, j: int) -> spec_fn(int) -> bool {
    |k: int| ford(t, types_of(t), sigma, k, j, false)
}

/// The slot of position `j` once induced sorting is complete: the number of
/// positions before it in the induced order.
pub open spec fn pos(t: Seq<int>, sigma: spec_fn(int) -> int, j: int) -> int {
    count(t.len() as int, below(t, sigma, j)) as int
}

/// The predicate "`x` is a leftmost S position with the symbol of `p` and a
/// larger seed rank".
pub open spec fn lms_after(t: Seq<int>, sigma: spec_fn(int) -> int, p: int) -> spec_fn(int) -> bool {
    |x: int| is_lms_at(types_of(t), x) && t[x] == t[p] && sigma(x) > sigma(p)
}

/// The slot where a seed goes: seeds fill the end of their bucket, in the
/// order of their ranks.
pub open spec fn seedpos(t: Seq<int>, sigma: spec_fn(int) -> int, p: int) -> int {
    bstart(t, t[p] + 1) - 1 - count(t.len() as int, lms_after(t, sigma, p))
}

/// The slot of an L or leftmost S position during the L pass: an L position
/// is at its final slot, a leftmost S position at its seed slot.
pub open spec fn posl(t: Seq<int>, sigma: spec_fn(int) -> int, x: int) -> int {
    if types_of(t)[x] == L {
        pos(t, sigma, x)
    } else {
        seedpos(t, sigma, x)
    }
}

/// Position `x` is an L position or a leftmost S position.
pub open spec fn l_or_lms(t: Seq<int>, x: int) -> bool {
    0 <= x < t.len() && (types_of(t)[x] == L || is_lms_at(types_of(t), x))
}

pub proof fn lemma_pos_range(t: Seq<int>, sigma: spec_fn(int) -> int, j: int)
    requires
        0 <= j < t.len(),
    ensures
        0 <= pos(t, sigma, j) < t.len(),
{
    lemma_ford_irrefl(t, types_of(t), sigma, j, false);
    lemma_count_lt(t.len() as int, below(t, sigma, j), j);
}

pub proof fn lemma_pos_mono(t: Seq<int>, sigma: spec_fn(int) -> int, a: int, b: int)
    requires
        ford(t, types_of(t), sigma, a, b, false),
    ensures
        pos(t, sigma, a) < pos(t, sigma, b),
{
    let ty = types_of(t);
    lemma_types_of_binary(t);
    assert forall|k: int| 0 <= k < t.len() && #[trigger] below(t, sigma, a)(k) implies below(t, sigma, b)(k) by {
        lemma_ford_trans(t, ty, sigma, k, a, b, false);
    }
    lemma_ford_irrefl(t, ty, sigma, a, false);
    lemma_count_strict(t.len() as int, below(t, sigma, a), below(t, sigma, b), a);
}

/// The final slots of distinct positions differ, in the induced order.
pub proof fn lemma_pos_order(t: Seq<int>, sigma: spec_fn(int) -> int, a: int, b: int)
    requires
        valid_text(t),
        sigma_injective(types_of(t), sigma),
        0 <= a < t.len(),
        0 <= b < t.len(),
        a != b,
    ensures
        ford(t, types_of(t), sigma, a, b, false) <==> pos(t, sigma, a) < pos(t, sigma, b),
        pos(t, sigma, a) != pos(t, sigma, b),
{
    lemma_ford_total(t, sigma, a, b, false);
    if ford(t, types_of(t), sigma, a, b, false) {
        lemma_pos_mono(t, sigma, a, b);
    } else {
        lemma_pos_mono(t, sigma, b, a);
    }
}

pub proof fn lemma_bstart_mono(t: Seq<int>, c: int, d: int)
    requires
        c <= d,
    ensures
        bstart(t, c) <= bstart(t, d),
        bstart(t, d) <= t.len(),
{
    lemma_count_mono(t.len() as int, lt_sym(t, c), lt_sym(t, d));
    lemma_count_bound(t.len() as int, lt_sym(t, d));
}

/// The final slot of a position lies in the bucket of its symbol.
pub proof fn lemma_pos_bucket(t: Seq<int>, sigma: spec_fn(int) -> int, j: int)
    requires
        0 <= j < t.len(),
    ensures
        bstart(t, t[j]) <= pos(t, sigma, j) < bstart(t, t[j] + 1),
{
    let n = t.len() as int;
    let c = t[j];
    lemma_count_mono(n, lt_sym(t, c), below(t, sigma, j));
    lemma_ford_irrefl(t, types_of(t), sigma, j, false);
    lemma_count_strict(n, below(t, sigma, j), lt_sym(t, c + 1), j);
}

/// A bucket holds its L positions first and its S positions after them.
pub proof fn lemma_pos_l_part(t: Seq<int>, sigma: spec_fn(int) -> int, j: int)
    requires
        valid_text(t),
        0 <= j < t.len(),
    ensures
        types_of(t)[j] == L ==> pos(t, sigma, j) < bstart(t, t[j]) + nl(t, t[j]),
        types_of(t)[j] == S ==> pos(t, sigma, j) >= bstart(t, t[j]) + nl(t, t[j]),
{
    let n = t.len() as int;
    let c = t[j];
    let ty = types_of(t);
    let both = |k: int| t[k] < c || (t[k] == c && ty[k] == L);
    lemma_count_split(n, both, lt_sym(t, c));
    lemma_count_ext(n, |k: int| both(k) && lt_sym(t, c)(k), lt_sym(t, c));
    lemma_count_ext(n, |k: int| both(k) && !lt_sym(t, c)(k), l_sym(t, c));
    lemma_types_of_binary(t);
    if ty[j] == L {
        lemma_ford_irrefl(t, ty, sigma, j, false);
        assert forall|k: int| 0 <= k < n && #[trigger] below(t, sigma, j)(k) implies both(k) by {
            lemma_type_facts(t, k);
        }
        lemma_count_strict(n, below(t, sigma, j), both, j);
    }
    if ty[j] == S {
        assert forall|k: int| 0 <= k < n && #[trigger] both(k) implies below(t, sigma, j)(k) by {
            lemma_type_facts(t, k);
        }
        lemma_count_mono(n, both, below(t, sigma, j));
    }
}

/// The size of a bucket is the number of its L and S positions.
pub proof fn lemma_bucket_size(t: Seq<int>, c: int)
    ensures
        bstart(t, c + 1) == bstart(t, c) + nl(t, c) + count(t.len() as int, s_sym(t, c)),
{
    let n = t.len() as int;
    let ty = types_of(t);
    lemma_count_split(n, lt_sym(t, c + 1), lt_sym(t, c));
    lemma_count_ext(n, |k: int| lt_sym(t, c + 1)(k) && lt_sym(t, c)(k), lt_sym(t, c));
    let eq = |k: int| lt_sym(t, c + 1)(k) && !lt_sym(t, c)(k);
    lemma_count_split(n, eq, |k: int| ty[k] == L);
    lemma_types_of_binary(t);
    lemma_count_ext(n, |k: int| eq(k) && (|k: int| ty[k] == L)(k), l_sym(t, c));
    lemma_count_ext(n, |k: int| eq(k) && !(|k: int| ty[k] == L)(k), s_sym(t, c));
}

/// Seed slots lie after the L part of their bucket.
pub proof fn lemma_seedpos_range(t: Seq<int>, sigma: spec_fn(int) -> int, p: int)
    requires
        valid_text(t),
        is_lms_at(types_of(t), p),
    ensures
        bstart(t, t[p]) + nl(t, t[p]) <= seedpos(t, sigma, p) < bstart(t, t[p] + 1),
{
    let n = t.len() as int;
    let c = t[p];
    lemma_bucket_size(t, c);
    lemma_count_strict(n, lms_after(t, sigma, p), s_sym(t, c), p);
}

/// Seeds of one bucket are in the order of their ranks.
pub proof fn lemma_seedpos_order(t: Seq<int>, sigma: spec_fn(int) -> int, p: int, q: int)
    requires
        is_lms_at(types_of(t), p),
        is_lms_at(types_of(t), q),
        t[p] == t[q],
        sigma(p) < sigma(q),
    ensures
        seedpos(t, sigma, p) < seedpos(t, sigma, q),
{
    lemma_count_strict(t.len() as int, lms_after(t, sigma, q), lms_after(t, sigma, p), q);
}

/// During the L pass, the order of L and leftmost S positions (with the flag
/// set) is the order of their slots.
pub proof fn lemma_posl_order(t: Seq<int>, sigma: spec_fn(int) -> int, a: int, b: int)
    requires
        valid_text(t),
        sigma_injective(types_of(t), sigma),
        l_or_lms(t, a),
        l_or_lms(t, b),
        a != b,
    ensures
        ford(t, types_of(t), sigma, a, b, true) <==> posl(t, sigma, a) < posl(t, sigma, b),
        posl(t, sigma, a) != posl(t, sigma, b),
{
    let ty = types_of(t);
    lemma_type_facts(t, a);
    lemma_type_facts(t, b);
    if ty[a] == L {
        lemma_pos_bucket(t, sigma, a);
        lemma_pos_l_part(t, sigma, a);
    } else {
        lemma_seedpos_range(t, sigma, a);
    }
    if ty[b] == L {
        lemma_pos_bucket(t, sigma, b);
        lemma_pos_l_part(t, sigma, b);
    } else {
        lemma_seedpos_range(t, sigma, b);
    }
    if t[a] < t[b] {
        lemma_bstart_mono(t, t[a] + 1, t[b]);
    } else if t[b] < t[a] {
        lemma_bstart_mono(t, t[b] + 1, t[a]);
    } else if ty[a] == L && ty[b] == L {
        lemma_pos_order(t, sigma, a, b);
    } else if ty[a] == S && ty[b] == S {
        assert(sigma(a) != sigma(b));
        if sigma(a) < sigma(b) {
            lemma_seedpos_order(t, sigma, a, b);
        } else {
            lemma_seedpos_order(t, sigma, b, a);
        }
    }
}

/// The successor of an L position comes before it during the L pass.
pub proof fn lemma_l_succ_before(t: Seq<int>, sigma: spec_fn(int) -> int, y: int)
    requires
        valid_text(t),
        0 <= y < t.len(),
        types_of(t)[y] == L,
    ensures
        y + 1 < t.len(),
        l_or_lms(t, y + 1),
        ford(t, types_of(t), sigma, y + 1, y, true),
    decreases t.len() - y,
{
    let ty = types_of(t);
    lemma_type_facts(t, y);
    lemma_type_facts(t, y + 1);
    if t[y + 1] == t[y] {
        lemma_l_succ_before(t, sigma, y + 1);
    }
}

/// The successor of an S position (other than the last) comes after it.
pub proof fn lemma_s_succ_after(t: Seq<int>, sigma: spec_fn(int) -> int, y: int)
    requires
        valid_text(t),
        0 <= y < t.len() - 1,
        types_of(t)[y] == S,
    ensures
        ford(t, types_of(t), sigma, y, y + 1, false),
    decreases t.len() - y,
{
    let ty = types_of(t);
    lemma_type_facts(t, y);
    lemma_type_facts(t, y + 1);
    if t[y + 1] == t[y] {
        lemma_equal_not_last(t, y, y + 1);
        lemma_s_succ_after(t, sigma, y + 1);
    }
}

} // verus!
