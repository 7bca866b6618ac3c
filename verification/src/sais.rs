//! Suffix array construction by induced sorting, and why its result is the
//! suffix array.
use vstd::prelude::*;
use crate::theory::count::{
    count, lemma_count_ext, lemma_count_split, lemma_count_strict, lemma_count_none,
};
use crate::symbol::{Symbol, sym_seq};
use crate::types::{types_of, is_lms_at, lms_of};
use crate::buckets::{has_sym, occurrences, prefix_sum};
use crate::theory::order::{
    valid_text, slt, sigma_injective, sigma_sorted, lemma_slt_asym, lemma_slt_irrefl,
    lemma_ford_slt_sorted,
};
use crate::theory::rank::{lt_sym, bstart, pos, lemma_pos_order, lemma_pos_range};
use crate::theory::seeds::{seed_list, list_rank, in_list, lemma_place, lemma_list_rank_injective};
use crate::theory::lpass::lemma_l_pass;
use crate::theory::spass::{lemma_s_pass, induced, lemma_pos_sentinel};
use crate::theory::nameproof::lemma_induced_slots;
use crate::induce::{
    empty_array, place_run, place_safe, l_run, l_safe, s_run, s_safe, place_lms, induce_l,
    induce_s,
};
use crate::buckets::{get_frequencies, get_heads_tails};
use crate::types::{find_types, find_lms, is_lms};
use crate::naming::{summarize, name_run};

verus! {

/// `r` is the suffix array of `u`: it lists every position of `u` once, in
/// increasing order of the suffixes starting there.
pub open spec fn is_suffix_array(u: Seq<int>, r: Seq<usize>) -> bool {
    &&& r.len() == u.len()
    &&& forall|a: int| 0 <= a < r.len() ==> #[trigger] r[a] < u.len()
    &&& forall|a: int, b: int| 0 <= a < b < r.len() ==> slt(u, #[trigger] r[a] as int, #[trigger] r[b] as int)
    &&& forall|x: int| 0 <= x < u.len() ==> #[trigger] in_list(r, x)
}

/// The bucket starts are the prefix sums of the frequencies.
pub proof fn lemma_prefix_bstart(t: Seq<int>, freq: Seq<usize>, c: int)
    requires
        forall|d: int| 0 <= d < freq.len() ==> #[trigger] freq[d] == occurrences(t, d),
        forall|k: int| 0 <= k < t.len() ==> #[trigger] t[k] >= 0,
        0 <= c <= freq.len(),
    ensures
        prefix_sum(freq, c) == bstart(t, c),
    decreases c,
{
    let n = t.len() as int;
    if c == 0 {
        assert forall|k: int| 0 <= k < n implies !#[trigger] lt_sym(t, 0)(k) by {
            assert(t[k] >= 0);
        }
        lemma_count_none(n, lt_sym(t, 0));
    } else {
        lemma_prefix_bstart(t, freq, c - 1);
        lemma_count_split(n, lt_sym(t, c), lt_sym(t, c - 1));
        lemma_count_ext(n, |k: int| lt_sym(t, c)(k) && lt_sym(t, c - 1)(k), lt_sym(t, c - 1));
        lemma_count_ext(n, |k: int| lt_sym(t, c)(k) && !lt_sym(t, c - 1)(k), has_sym(t, c - 1));
    }
}

/// A symbol of the text occurs at least once.
pub proof fn lemma_occurs(t: Seq<int>, k: int)
    requires
        0 <= k < t.len(),
    ensures
        occurrences(t, t[k]) >= 1,
{
    lemma_count_none(t.len() as int, |y: int| false);
    lemma_count_strict(t.len() as int, |y: int| false, has_sym(t, t[k]), k);
}

/// Placing a seed list, then the L pass, then the S pass, all stay in bounds
/// and end with every position in its final slot under the list's ranks.
pub proof fn lemma_induced_sort(t: Seq<int>, list: Seq<usize>, heads0: Seq<usize>, tails0: Seq<usize>)
    requires
        valid_text(t),
        t.len() >= 2,
        t.len() <= usize::MAX,
        seed_list(t, list),
        forall|k: int| 0 <= k < t.len() ==> 0 <= #[trigger] t[k] < heads0.len(),
        forall|k: int| 0 <= k < t.len() ==> 0 <= #[trigger] t[k] < tails0.len(),
        forall|k: int| 0 <= k < t.len() ==> heads0[#[trigger] t[k]] == bstart(t, t[k]),
        forall|k: int| 0 <= k < t.len() ==> tails0[#[trigger] t[k]] == bstart(t, t[k] + 1) - 1,
    ensures
        ({
            let ty = types_of(t);
            let n = t.len() as int;
            let sa1 = place_run(t, list, empty_array(n), tails0, list.len() as int).0;
            let sa2 = l_run(t, ty, sa1, heads0, 0).0;
            &&& place_safe(t, list, empty_array(n), tails0, list.len() as int)
            &&& l_safe(t, ty, sa1, heads0, 0)
            &&& s_safe(t, ty, sa2, tails0, n)
            &&& induced(t, list_rank(list), s_run(t, ty, sa2, tails0, n).0)
            &&& sigma_injective(ty, list_rank(list))
        }),
{
    let ty = types_of(t);
    let n = t.len() as int;
    let sigma = list_rank(list);
    lemma_place(t, list, tails0);
    let sa1 = place_run(t, list, empty_array(n), tails0, list.len() as int).0;
    lemma_l_pass(t, sigma, sa1, heads0);
    let sa2 = l_run(t, ty, sa1, heads0, 0).0;
    lemma_s_pass(t, sigma, sa2, tails0);
}

/// Ranks of a seed list in increasing suffix order follow the suffix order.
pub proof fn lemma_sorted_list_ranks(t: Seq<int>, list: Seq<usize>)
    requires
        seed_list(t, list),
        forall|a: int, b: int| 0 <= a < b < list.len() ==> slt(t, #[trigger] list[a] as int, #[trigger] list[b] as int),
    ensures
        sigma_sorted(t, list_rank(list)),
        sigma_injective(types_of(t), list_rank(list)),
{
    lemma_list_rank_injective(t, list);
    let sigma = list_rank(list);
    assert forall|p: int, q: int|
        is_lms_at(types_of(t), p) && is_lms_at(types_of(t), q) && p != q && t[p] == t[q] implies (#[trigger] sigma(p)
        < #[trigger] sigma(q) <==> slt(t, p, q)) by {
        let a = sigma(p);
        let b = sigma(q);
        assert(list[a] == p && list[b] == q);
        if a < b {
            assert(slt(t, list[a] as int, list[b] as int));
        } else {
            assert(a != b);
            assert(slt(t, list[b] as int, list[a] as int));
            lemma_slt_asym(t, q, p);
        }
    }
}

/// The suffixes of a text and of the text with the sentinel appended compare
/// alike.
pub proof fn lemma_slt_sentinel(u: Seq<int>, i: int, j: int)
    requires
        forall|k: int| 0 <= k < u.len() ==> #[trigger] u[k] > 0,
        0 <= i <= u.len(),
        0 <= j <= u.len(),
    ensures
        slt(u.push(0), i, j) == slt(u, i, j),
    decreases u.len() - i,
{
    let t = u.push(0);
    let m = u.len() as int;
    assert(t[m] == 0);
    if i == m && j == m {
        assert(slt(t, i, j) == slt(t, m + 1, m + 1));
    }
    if i < m && j < m && u[i] == u[j] {
        lemma_slt_sentinel(u, i + 1, j + 1);
    }
    if i < m {
        assert(t[i] == u[i]);
    }
    if j < m {
        assert(t[j] == u[j]);
    }
}

/// After induced sorting with seeds in suffix order, the slots after the
/// sentinel's form the suffix array of the text without the sentinel.
pub proof fn lemma_final_sa(u: Seq<int>, sigma: spec_fn(int) -> int, sa: Seq<usize>)
    requires
        forall|k: int| 0 <= k < u.len() ==> #[trigger] u[k] > 0,
        valid_text(u.push(0)),
        sigma_injective(types_of(u.push(0)), sigma),
        sigma_sorted(u.push(0), sigma),
        induced(u.push(0), sigma, sa),
    ensures
        is_suffix_array(u, sa.subrange(1, sa.len() as int)),
{
    let t = u.push(0);
    let n = t.len() as int;
    let r = sa.subrange(1, n);
    lemma_induced_slots(t, sigma, sa);
    lemma_pos_sentinel(t, sigma);
    assert forall|a: int| 0 <= a < r.len() implies #[trigger] r[a] < u.len() by {
        assert(r[a] == sa[a + 1]);
        assert(pos(t, sigma, sa[a + 1] as int) == a + 1);
    }
    assert forall|a: int, b: int| 0 <= a < b < r.len() implies slt(u, #[trigger] r[a] as int, #[trigger] r[b] as int) by {
        let x = sa[a + 1] as int;
        let y = sa[b + 1] as int;
        assert(pos(t, sigma, x) == a + 1 && pos(t, sigma, y) == b + 1);
        assert(x < u.len() && y < u.len());
        lemma_pos_order(t, sigma, x, y);
        lemma_ford_slt_sorted(t, sigma, x, y, false);
        lemma_slt_sentinel(u, x, y);
    }
    assert forall|x: int| 0 <= x < u.len() implies #[trigger] in_list(r, x) by {
        lemma_pos_range(t, sigma, x);
        lemma_pos_order(t, sigma, x, n - 1);
        let s = pos(t, sigma, x);
        assert(sa[s] == x);
        assert(r[s - 1] == x);
    }
}

} // verus!

verus! {

/// The leftmost S positions among the first `k` slots, in slot order.
pub open spec fn lms_in_order(ty: Seq<u8>, sa: Seq<usize>, k: int) -> Seq<usize>
    decreases k,
{
    if k <= 0 {
        Seq::empty()
    } else if sa[k - 1] != usize::MAX && is_lms_at(ty, sa[k - 1] as int) {
        lms_in_order(ty, sa, k - 1).push(sa[k - 1])
    } else {
        lms_in_order(ty, sa, k - 1)
    }
}

/// In an induced array, the leftmost S positions of the first `k` slots
/// appear in the order of their slots, each once.
pub proof fn lemma_lms_in_order(t: Seq<int>, sigma: spec_fn(int) -> int, sa: Seq<usize>, k: int)
    requires
        valid_text(t),
        sigma_injective(types_of(t), sigma),
        induced(t, sigma, sa),
        t.len() <= usize::MAX,
        0 <= k <= t.len(),
    ensures
        ({
            let l = lms_in_order(types_of(t), sa, k);
            &&& forall|a: int|
                0 <= a < l.len() ==> is_lms_at(types_of(t), #[trigger] l[a] as int) && pos(t, sigma, l[a] as int)
                    < k
            &&& forall|a: int, b: int|
                0 <= a < b < l.len() ==> pos(t, sigma, #[trigger] l[a] as int) < pos(t, sigma, #[trigger] l[b] as int)
            &&& forall|x: int| #[trigger] is_lms_at(types_of(t), x) && pos(t, sigma, x) < k ==> in_list(l, x)
        }),
    decreases k,
{
    let ty = types_of(t);
    lemma_induced_slots(t, sigma, sa);
    if k > 0 {
        lemma_lms_in_order(t, sigma, sa, k - 1);
        let prev = lms_in_order(ty, sa, k - 1);
        let l = lms_in_order(ty, sa, k);
        assert(pos(t, sigma, sa[k - 1] as int) == k - 1);
        assert forall|x: int| #[trigger] is_lms_at(ty, x) && pos(t, sigma, x) < k implies in_list(l, x) by {
            if pos(t, sigma, x) < k - 1 {
                let a = choose|a: int| 0 <= a < prev.len() && prev[a] == x;
                assert(l[a] == x);
            } else {
                if x != sa[k - 1] {
                    lemma_pos_order(t, sigma, x, sa[k - 1] as int);
                }
                assert(sa[k - 1] != usize::MAX);
                assert(l == prev.push(sa[k - 1]));
                assert(l[prev.len() as int] == x);
            }
        }
    }
}

/// A seed list in increasing suffix order.
pub open spec fn sorted_seeds(t: Seq<int>, list: Seq<usize>) -> bool {
    &&& seed_list(t, list)
    &&& forall|a: int, b: int| 0 <= a < b < list.len() ==> slt(t, #[trigger] list[a] as int, #[trigger] list[b] as int)
}

/// When every LMS substring has its own name, the leftmost S positions of the
/// induced array are already in suffix order.
pub proof fn lemma_filter_sorted(t: Seq<int>, sigma: spec_fn(int) -> int, sa: Seq<usize>, names: Seq<usize>)
    requires
        valid_text(t),
        t.len() <= usize::MAX,
        sigma_injective(types_of(t), sigma),
        induced(t, sigma, sa),
        forall|p: int, q: int|
            is_lms_at(types_of(t), p) && is_lms_at(types_of(t), q) && pos(t, sigma, p) < pos(t, sigma, q)
                ==> #[trigger] names[p] <= #[trigger] names[q],
        forall|p: int, q: int|
            is_lms_at(types_of(t), p) && is_lms_at(types_of(t), q) && #[trigger] names[p] < #[trigger] names[q]
                ==> slt(t, p, q),
        forall|p: int, q: int|
            is_lms_at(types_of(t), p) && is_lms_at(types_of(t), q) && p != q ==> #[trigger] names[p]
                != #[trigger] names[q],
    ensures
        sorted_seeds(t, lms_in_order(types_of(t), sa, t.len() as int)),
{
    let ty = types_of(t);
    let n = t.len() as int;
    let l = lms_in_order(ty, sa, n);
    lemma_lms_in_order(t, sigma, sa, n);
    assert forall|a: int, b: int| 0 <= a < b < l.len() implies slt(t, #[trigger] l[a] as int, #[trigger] l[b] as int) by {
        let p = l[a] as int;
        let q = l[b] as int;
        assert(pos(t, sigma, p) < pos(t, sigma, q));
        assert(names[p] <= names[q]);
        assert(p != q);
    }
    assert(l.no_duplicates()) by {
        assert forall|a: int, b: int| 0 <= a < l.len() && 0 <= b < l.len() && a != b implies l[a] != l[b] by {
            if a < b {
                assert(pos(t, sigma, l[a] as int) < pos(t, sigma, l[b] as int));
            } else {
                assert(pos(t, sigma, l[b] as int) < pos(t, sigma, l[a] as int));
            }
        }
    }
    assert forall|p: int| #[trigger] is_lms_at(ty, p) implies in_list(l, p) by {
        lemma_pos_range(t, sigma, p);
    }
}

/// The positions of the suffix array of the reduced text, taken back to the
/// text, are the leftmost S positions in suffix order.
pub proof fn lemma_mapped_sorted(t: Seq<int>, names: Seq<usize>, u: Seq<int>, rsa: Seq<usize>)
    requires
        valid_text(t),
        t.len() >= 2,
        t.len() <= usize::MAX,
        u.len() == lms_of(types_of(t)).len(),
        forall|i: int| 0 <= i < u.len() ==> #[trigger] u[i] == names[lms_of(types_of(t))[i] as int],
        forall|p: int, q: int|
            is_lms_at(types_of(t), p) && is_lms_at(types_of(t), q) && #[trigger] names[p] < #[trigger] names[q]
                ==> slt(t, p, q),
        forall|p: int, q: int|
            is_lms_at(types_of(t), p) && is_lms_at(types_of(t), q) && #[trigger] names[p] == #[trigger] names[q]
                ==> crate::naming::lms_equal(t, types_of(t), p, q),
        is_suffix_array(u, rsa),
    ensures
        sorted_seeds(
            t,
            Seq::new(rsa.len(), |k: int| lms_of(types_of(t))[rsa[k] as int]),
        ),
{
    let ty = types_of(t);
    let off = lms_of(ty);
    let l = Seq::new(rsa.len(), |k: int| off[rsa[k] as int]);
    crate::theory::lmslist::lemma_lms_of(t);
    assert forall|a: int, b: int| 0 <= a < b < l.len() implies slt(t, #[trigger] l[a] as int, #[trigger] l[b] as int) by {
        assert(slt(u, rsa[a] as int, rsa[b] as int));
        if rsa[a] == rsa[b] {
            lemma_slt_irrefl(u, rsa[a] as int);
        }
        crate::theory::reduce::lemma_reduced_order(t, names, u, rsa[a] as int, rsa[b] as int);
    }
    assert forall|a: int| 0 <= a < l.len() implies is_lms_at(ty, #[trigger] l[a] as int) by {
        assert(rsa[a] < u.len());
    }
    assert(l.no_duplicates()) by {
        assert forall|a: int, b: int| 0 <= a < l.len() && 0 <= b < l.len() && a != b implies l[a] != l[b] by {
            if a < b {
                assert(slt(t, l[a] as int, l[b] as int));
            } else {
                assert(slt(t, l[b] as int, l[a] as int));
            }
            if l[a] == l[b] {
                lemma_slt_irrefl(t, l[a] as int);
            }
        }
    }
    assert forall|p: int| #[trigger] is_lms_at(ty, p) implies in_list(l, p) by {
        assert(in_list(off, p));
        let i = choose|i: int| 0 <= i < off.len() && off[i] == p;
        assert(in_list(rsa, i));
        let k = choose|k: int| 0 <= k < rsa.len() && rsa[k] == i;
        assert(l[k] == p);
    }
}

} // verus!

verus! {

/// The bucket arrays computed from the frequencies give every symbol of the
/// text its bucket's first and last slot.
pub proof fn lemma_bucket_arrays(t: Seq<int>, freq: Seq<usize>, heads: Seq<usize>, tails: Seq<usize>)
    requires
        forall|k: int| 0 <= k < t.len() ==> #[trigger] t[k] >= 0,
        freq.len() == crate::buckets::alphabet_size(t),
        forall|c: int| 0 <= c < freq.len() ==> #[trigger] freq[c] == occurrences(t, c),
        heads.len() == freq.len(),
        tails.len() == freq.len(),
        forall|c: int| 0 <= c < freq.len() && freq[c] != 0 ==> #[trigger] heads[c] == prefix_sum(freq, c),
        forall|c: int| 0 <= c < freq.len() && freq[c] != 0 ==> #[trigger] tails[c] == prefix_sum(freq, c + 1) - 1,
    ensures
        forall|k: int| 0 <= k < t.len() ==> 0 <= #[trigger] t[k] < heads.len(),
        forall|k: int| 0 <= k < t.len() ==> heads[#[trigger] t[k]] == bstart(t, t[k]),
        forall|k: int| 0 <= k < t.len() ==> tails[#[trigger] t[k]] == bstart(t, t[k] + 1) - 1,
        prefix_sum(freq, freq.len() as int) <= t.len(),
{
    crate::buckets::lemma_max_upto(t, t.len() as int);
    assert forall|k: int| 0 <= k < t.len() implies heads[#[trigger] t[k]] == bstart(t, t[k]) && tails[t[k]] == bstart(
        t,
        t[k] + 1,
    ) - 1 by {
        lemma_occurs(t, k);
        lemma_prefix_bstart(t, freq, t[k]);
        lemma_prefix_bstart(t, freq, t[k] + 1);
    }
    lemma_prefix_bstart(t, freq, freq.len() as int);
    crate::theory::count::lemma_count_bound(t.len() as int, lt_sym(t, freq.len() as int));
}

/// The naming scan over an induced array reads only inside the text and the
/// type map.
pub proof fn lemma_summarize_safe(t: Seq<int>, sigma: spec_fn(int) -> int, sa: Seq<usize>)
    requires
        crate::theory::nameproof::name_ctx(t, sigma, sa),
    ensures
        forall|k: int|
            0 <= k < sa.len() ==> crate::naming::name_step_ok(
                t,
                types_of(t),
                name_run(t, types_of(t), sa, k),
                #[trigger] sa[k],
            ),
{
    let ty = types_of(t);
    crate::theory::order::lemma_types_of_binary(t);
    lemma_induced_slots(t, sigma, sa);
    assert forall|k: int| 0 <= k < sa.len() implies crate::naming::name_step_ok(
        t,
        ty,
        name_run(t, ty, sa, k),
        #[trigger] sa[k],
    ) by {
        crate::theory::nameproof::lemma_name_run(t, sigma, sa, k);
        let st = name_run(t, ty, sa, k);
        if st.last is Some {
            let l = st.last->0;
            assert(crate::theory::nameproof::seen(t, sigma, k)(l as int));
            crate::naming::lemma_tail_walk_ok(t, ty, sa[k] + 1, l + 1);
        }
    }
}

/// The frequencies add up to the length of the text.
pub proof fn lemma_freq_total(t: Seq<int>, freq: Seq<usize>)
    requires
        forall|k: int| 0 <= k < t.len() ==> #[trigger] t[k] >= 0,
        forall|c: int| 0 <= c < freq.len() ==> #[trigger] freq[c] == occurrences(t, c),
    ensures
        prefix_sum(freq, freq.len() as int) <= t.len(),
{
    lemma_prefix_bstart(t, freq, freq.len() as int);
    crate::theory::count::lemma_count_bound(t.len() as int, lt_sym(t, freq.len() as int));
}

/// A text of positive symbols with the sentinel appended is a valid text.
pub proof fn lemma_with_sentinel(u: Seq<int>)
    requires
        forall|k: int| 0 <= k < u.len() ==> #[trigger] u[k] > 0,
    ensures
        valid_text(u.push(0)),
        forall|k: int| 0 <= k < u.push(0).len() ==> #[trigger] u.push(0)[k] >= 0,
{
    let t = u.push(0);
    assert forall|k: int| 0 <= k < t.len() - 1 implies #[trigger] t[k] > 0 by {
        assert(t[k] == u[k]);
    }
    assert forall|k: int| 0 <= k < t.len() implies #[trigger] t[k] >= 0 by {
        if k < u.len() {
            assert(t[k] == u[k]);
        }
    }
}

} // verus!

verus! {

/// The suffix array of the text: its positions listed in increasing order of
/// the suffixes that start there. Every symbol must be positive (the symbol 0
/// is the sentinel that the construction appends).
pub fn build_sa_is<T: Symbol>(bytes: &[T]) -> (sa: Vec<usize>)
    requires
        bytes@.len() >= 1,
        bytes@.len() + 2 <= usize::MAX,
        forall|k: int| 0 <= k < bytes@.len() ==> 0 < (#[trigger] bytes@[k]).spec_index() < usize::MAX,
    ensures
        is_suffix_array(sym_seq(bytes@), sa@),
{
    let mut symbols: Vec<usize> = Vec::new();
    let mut i: usize = 0;
    while i < bytes.len()
        invariant
            0 <= i <= bytes@.len(),
            symbols@.len() == i,
            forall|k: int| 0 <= k < i ==> symbols@[k] == (#[trigger] bytes@[k]).spec_index(),
        decreases bytes@.len() - i,
    {
        symbols.push(bytes[i].as_index());
        i = i + 1;
    }
    assert(sym_seq(symbols@) =~= sym_seq(bytes@));
    assert forall|k: int| 0 <= k < symbols@.len() implies 0 < (#[trigger] symbols@[k]).spec_index() < usize::MAX by {
        assert(symbols@[k] == bytes@[k].spec_index());
    }
    sa_is(symbols.as_slice())
}

/// The text followed by the sentinel.
fn with_sentinel(bytes: &[usize]) -> (text: Vec<usize>)
    ensures
        text@ == bytes@.push(0),
{
    let mut bytes_with_sentinel: Vec<usize> = Vec::new();
    let mut i: usize = 0;
    while i < bytes.len()
        invariant
            0 <= i <= bytes@.len(),
            bytes_with_sentinel@ == bytes@.subrange(0, i as int),
        decreases bytes@.len() - i,
    {
        bytes_with_sentinel.push(bytes[i]);
        i = i + 1;
    }
    bytes_with_sentinel.push(<usize as Symbol>::sentinel());
    assert(bytes@.subrange(0, bytes@.len() as int) == bytes@);
    bytes_with_sentinel
}

/// One round of induced sorting: the seeds at the ends of their buckets,
/// then the L pass, then the S pass. Every position ends in its final slot
/// under the ranks of the seed list.
fn induced_sort(text: &[usize], seeds: &[usize], freq: &[usize], type_map: &[u8]) -> (sa: Vec<usize>)
    requires
        valid_text(sym_seq(text@)),
        text@.len() >= 2,
        text@.len() <= usize::MAX,
        seed_list(sym_seq(text@), seeds@),
        type_map@ == types_of(sym_seq(text@)),
        freq@.len() == crate::buckets::alphabet_size(sym_seq(text@)),
        forall|c: int| 0 <= c < freq@.len() ==> #[trigger] freq@[c] == occurrences(sym_seq(text@), c),
    ensures
        induced(sym_seq(text@), list_rank(seeds@), sa@),
        sigma_injective(types_of(sym_seq(text@)), list_rank(seeds@)),
{
    let ghost t = sym_seq(text@);
    proof {
        assert forall|k: int| 0 <= k < t.len() implies #[trigger] t[k] >= 0 by {
        }
        lemma_freq_total(t, freq@);
    }
    let (heads, tails) = get_heads_tails(freq);
    proof {
        lemma_bucket_arrays(t, freq@, heads@, tails@);
        lemma_induced_sort(t, seeds@, heads@, tails@);
    }
    let mut tails1 = tails.clone();
    assert(tails1@ == tails@);
    let mut sa = place_lms(seeds, tails1.as_mut_slice(), text);
    let mut heads1 = heads.clone();
    assert(heads1@ == heads@);
    induce_l(text, sa.as_mut_slice(), type_map, heads1.as_mut_slice());
    let mut tails2 = tails.clone();
    assert(tails2@ == tails@);
    induce_s(text, sa.as_mut_slice(), type_map, tails2.as_mut_slice());
    sa
}

/// The leftmost S positions of an array, in slot order.
fn lms_in_slot_order(guessed_sa: &[usize], type_map: &[u8]) -> (lms: Vec<usize>)
    requires
        forall|x: int| 0 <= x < guessed_sa@.len() ==> #[trigger] guessed_sa@[x] < type_map@.len(),
    ensures
        lms@ == lms_in_order(type_map@, guessed_sa@, guessed_sa@.len() as int),
{
    let mut filtered: Vec<usize> = Vec::new();
    let mut k: usize = 0;
    while k < guessed_sa.len()
        invariant
            0 <= k <= guessed_sa@.len(),
            forall|x: int| 0 <= x < guessed_sa@.len() ==> #[trigger] guessed_sa@[x] < type_map@.len(),
            filtered@ == lms_in_order(type_map@, guessed_sa@, k as int),
        decreases guessed_sa@.len() - k,
    {
        let x = guessed_sa[k];
        if x != usize::MAX && is_lms(type_map, x) {
            filtered.push(x);
        }
        k = k + 1;
    }
    filtered
}

/// The text positions that the entries of `indices` refer to in `offsets`.
fn positions_of(indices: &[usize], offsets: &[usize]) -> (r: Vec<usize>)
    requires
        forall|a: int| 0 <= a < indices@.len() ==> #[trigger] indices@[a] < offsets@.len(),
    ensures
        r@ == Seq::new(indices@.len(), |a: int| offsets@[indices@[a] as int]),
{
    let mut mapped: Vec<usize> = Vec::new();
    let mut k: usize = 0;
    while k < indices.len()
        invariant
            0 <= k <= indices@.len(),
            forall|a: int| 0 <= a < indices@.len() ==> #[trigger] indices@[a] < offsets@.len(),
            mapped@ == Seq::new(k as nat, |a: int| offsets@[indices@[a] as int]),
        decreases indices@.len() - k,
    {
        let i = indices[k];
        mapped.push(offsets[i]);
        k = k + 1;
        assert(mapped@ =~= Seq::new(k as nat, |a: int| offsets@[indices@[a] as int]));
    }
    mapped
}

/// The array without its first slot.
fn drop_first(sa: &[usize]) -> (r: Vec<usize>)
    requires
        sa@.len() >= 1,
    ensures
        r@ == sa@.subrange(1, sa@.len() as int),
{
    let mut result: Vec<usize> = Vec::new();
    let mut k: usize = 1;
    while k < sa.len()
        invariant
            1 <= k <= sa@.len(),
            result@ == sa@.subrange(1, k as int),
        decreases sa@.len() - k,
    {
        result.push(sa[k]);
        k = k + 1;
    }
    result
}

/// Induced sorting on a text given by symbol indices; the reduced text is
/// sorted by the same function.
fn sa_is(bytes: &[usize]) -> (sa: Vec<usize>)
    requires
        bytes@.len() >= 1,
        bytes@.len() + 2 <= usize::MAX,
        forall|k: int| 0 <= k < bytes@.len() ==> 0 < (#[trigger] bytes@[k]).spec_index() < usize::MAX,
    ensures
        is_suffix_array(sym_seq(bytes@), sa@),
    decreases bytes@.len(),
{
    let ghost u = sym_seq(bytes@);
    let bytes_with_sentinel = with_sentinel(bytes);
    let text = bytes_with_sentinel.as_slice();
    let ghost t = sym_seq(text@);
    let ghost n = t.len() as int;
    proof {
        assert(t =~= u.push(0));
        lemma_with_sentinel(u);
    }
    let freq = get_frequencies(text);
    let type_map = find_types(text);
    let lms = find_lms(type_map.as_slice());
    proof {
        crate::theory::lmslist::lemma_lms_of(t);
    }
    let guessed_sa = induced_sort(text, lms.as_slice(), freq.as_slice(), type_map.as_slice());
    let ghost sigma1 = list_rank(lms@);
    let ghost ty = types_of(t);
    proof {
        lemma_induced_slots(t, sigma1, guessed_sa@);
        crate::theory::nameproof::lemma_names_final(t, sigma1, guessed_sa@);
        lemma_summarize_safe(t, sigma1, guessed_sa@);
    }
    let ghost st = name_run(t, ty, guessed_sa@, n);
    proof {
        assert forall|x: int| 0 <= x < n implies (#[trigger] st.names[x] == usize::MAX <==> !is_lms_at(ty, x)) by {
        }
        crate::theory::reduce::lemma_compact(t, st.names, n);
    }
    let (summary, suffix_offsets, name_count) = summarize(guessed_sa.as_slice(), text, type_map.as_slice());
    let ghost names = st.names;
    let ghost off = lms_of(ty);
    let sorted_lms: Vec<usize> = if name_count - 1 == summary.len() {
        let filtered = lms_in_slot_order(guessed_sa.as_slice(), type_map.as_slice());
        proof {
            lemma_filter_sorted(t, sigma1, guessed_sa@, names);
        }
        filtered
    } else {
        proof {
            assert(summary@.len() == off.len());
            assert(st.name < off.len());
            assert(off.len() * 2 <= n);
        }
        let reduced = summary.as_slice();
        assert(reduced@.len() < bytes@.len());
        let recursive_sa = sa_is(reduced);
        let mapped = positions_of(recursive_sa.as_slice(), suffix_offsets.as_slice());
        proof {
            lemma_mapped_sorted(t, names, sym_seq(summary@), recursive_sa@);
        }
        mapped
    };
    proof {
        lemma_sorted_list_ranks(t, sorted_lms@);
    }
    let final_sa = induced_sort(text, sorted_lms.as_slice(), freq.as_slice(), type_map.as_slice());
    proof {
        lemma_final_sa(u, list_rank(sorted_lms@), final_sa@);
    }
    drop_first(final_sa.as_slice())
}

} // verus!
