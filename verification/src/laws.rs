//! Properties of the library as a whole.
use vstd::prelude::*;
use crate::theory::count::{count, lemma_count_all, lemma_count_ext, lemma_count_none};
use crate::types::{S, L, type_of, types_of, is_lms_at, lms_of};
use crate::buckets::{has_sym, max_upto, occurrences, prefix_sum, alphabet_size, lemma_prefix_sum_mono};
use crate::theory::order::{
    valid_text, slt, reach, lemma_type_facts, lemma_equal_not_last, lemma_ford_slt_sorted, lemma_ford_irrefl,
    lemma_slt_irrefl,
};
use crate::theory::rank::{
    lt_sym, l_sym, pos, below, bucket_bounds, lemma_pos_order, lemma_pos_range, lemma_l_succ_before,
};
use crate::theory::seeds::{seed_list, list_rank, in_list, lemma_place};
use crate::theory::lpass::{l_done, lemma_l_pass, lemma_l_start, lemma_l_run, lemma_posl_range};
use crate::theory::nameproof::{lemma_induced_slots, lemma_names_final};
use crate::theory::lmslist::lemma_lms_of;
use crate::theory::shift::{
    sentinel_text, shift, from_symbol, lemma_shift_passes, lemma_shift_slt, lemma_shift_lms_equal,
    lemma_shift_valid, lemma_shift_type, lemma_shift_reach, lemma_shift_name_run,
};
use crate::naming::{lms_equal, name_run, compact};
use crate::theory::nameproof::lemma_name_run;
use crate::theory::reduce::lemma_compact;
use crate::sais::{
    lemma_prefix_bstart, lemma_induced_sort, lemma_sorted_list_ranks, sorted_seeds, is_suffix_array,
};
use crate::symbol::{Symbol, sym_seq, decimal};
use crate::aligned::{index_cells, slot_cells, type_cells, padded};
use crate::induce::{empty_slot, empty_array, place_run, place_safe, l_run, l_safe, s_run, s_safe};

verus! {

/// In a text whose last symbol is smaller than all others, a position is of
/// type S exactly when its suffix is smaller than the next one.
pub proof fn lemma_type_is_order(t: Seq<int>, i: int)
    requires
        sentinel_text(t),
        0 <= i < t.len() - 1,
    ensures
        type_of(t, i) == S <==> slt(t, i, i + 1),
{
    let m = t[t.len() - 1];
    lemma_shift_valid(t);
    lemma_type_is_order_shifted(shift(t, m), i);
    lemma_shift_type(t, m, i);
    lemma_shift_slt(t, m, i, i + 1);
}

/// The same for a text that ends with 0 and whose other symbols are positive.
proof fn lemma_type_is_order_shifted(t: Seq<int>, i: int)
    requires
        valid_text(t),
        0 <= i < t.len() - 1,
    ensures
        type_of(t, i) == S <==> slt(t, i, i + 1),
    decreases t.len() - i,
{
    lemma_type_facts(t, i);
    lemma_type_facts(t, i + 1);
    if t[i] == t[i + 1] {
        lemma_equal_not_last(t, i, i + 1);
        lemma_type_is_order_shifted(t, i + 1);
    }
}

/// The buckets of two symbols that occur do not overlap, the smaller symbol's
/// bucket comes first, and a bucket has as many slots as its symbol has
/// occurrences (for the heads and tails that `get_heads_tails` returns).
pub proof fn lemma_bucket_layout(f: Seq<usize>, c: int, d: int)
    requires
        0 <= c < d < f.len(),
        f[c] != 0,
    ensures
        prefix_sum(f, c + 1) - 1 < prefix_sum(f, d),
        (prefix_sum(f, c + 1) - 1) - prefix_sum(f, c) + 1 == f[c],
{
    lemma_prefix_sum_mono(f, 0, f.len() as int);
}

/// The frequencies of the symbols add up to the length of the text.
pub proof fn lemma_frequencies_sum(t: Seq<int>, freq: Seq<usize>)
    requires
        forall|k: int| 0 <= k < t.len() ==> #[trigger] t[k] >= 0,
        freq.len() == alphabet_size(t),
        forall|c: int| 0 <= c < freq.len() ==> #[trigger] freq[c] == occurrences(t, c),
    ensures
        prefix_sum(freq, freq.len() as int) == t.len(),
{
    crate::buckets::lemma_max_upto(t, t.len() as int);
    lemma_prefix_bstart(t, freq, freq.len() as int);
    lemma_count_all(t.len() as int, lt_sym(t, freq.len() as int));
}

/// The number of suffixes of `t` smaller than the one at `j`: the slot of `j`
/// in the suffix array.
pub open spec fn suffix_rank(t: Seq<int>, j: int) -> int {
    count(t.len() as int, |k: int| slt(t, k, j)) as int
}

/// Induced sorting from seeds in suffix order sorts all suffixes: on a text
/// whose last symbol is smaller than all others, placing the seeds at the
/// ends of their buckets, inducing the L positions and then the S positions
/// stays in bounds and yields the suffix array.
pub proof fn lemma_induced_sort_sorts(t: Seq<int>, list: Seq<usize>, heads0: Seq<usize>, tails0: Seq<usize>)
    requires
        sentinel_text(t),
        2 <= t.len() <= usize::MAX,
        sorted_seeds(t, list),
        bucket_bounds(t, heads0, tails0),
    ensures
        ({
            let ty = types_of(t);
            let n = t.len() as int;
            let sa1 = place_run(t, list, empty_array(n), tails0, list.len() as int).0;
            let sa2 = l_run(t, ty, sa1, heads0, 0).0;
            let sa3 = s_run(t, ty, sa2, tails0, n).0;
            &&& place_safe(t, list, empty_array(n), tails0, list.len() as int)
            &&& l_safe(t, ty, sa1, heads0, 0)
            &&& s_safe(t, ty, sa2, tails0, n)
            &&& is_suffix_array(t, sa3)
        }),
{
    let ty = types_of(t);
    let n = t.len() as int;
    let m = t[n - 1];
    let u = shift(t, m);
    lemma_shift_passes(t, list, heads0, tails0);
    let hu = from_symbol(heads0, m);
    let tu = from_symbol(tails0, m);
    assert forall|a: int, b: int| 0 <= a < b < list.len() implies slt(u, #[trigger] list[a] as int, #[trigger] list[b] as int) by {
        lemma_shift_slt(t, m, list[a] as int, list[b] as int);
    }
    lemma_induced_sort(u, list, hu, tu);
    lemma_sorted_list_ranks(u, list);
    let sigma = list_rank(list);
    let sa1 = place_run(t, list, empty_array(n), tails0, list.len() as int).0;
    let sa2 = l_run(t, ty, sa1, heads0, 0).0;
    let sa3 = s_run(t, ty, sa2, tails0, n).0;
    lemma_induced_slots(u, sigma, sa3);
    assert forall|a: int, b: int| 0 <= a < b < n implies slt(t, #[trigger] sa3[a] as int, #[trigger] sa3[b] as int) by {
        lemma_pos_order(u, sigma, sa3[a] as int, sa3[b] as int);
        lemma_ford_slt_sorted(u, sigma, sa3[a] as int, sa3[b] as int, false);
        lemma_shift_slt(t, m, sa3[a] as int, sa3[b] as int);
    }
    assert forall|x: int| 0 <= x < n implies #[trigger] in_list(sa3, x) by {
        lemma_pos_range(u, sigma, x);
        assert(sa3[pos(u, sigma, x)] == x);
    }
}

/// The L pass writes only into empty slots. Whatever the order of the seeds,
/// after placing them and running the L pass: every slot that held a seed
/// still holds it; a slot that changed was empty and now holds an L position;
/// every L position is in some slot and no position is in two; and the head
/// of each bucket has moved past the L positions of its symbol.
pub proof fn lemma_l_pass_fills_empty(t: Seq<int>, list: Seq<usize>, heads0: Seq<usize>, tails0: Seq<usize>)
    requires
        sentinel_text(t),
        2 <= t.len() <= usize::MAX,
        seed_list(t, list),
        bucket_bounds(t, heads0, tails0),
    ensures
        ({
            let ty = types_of(t);
            let n = t.len() as int;
            let sa1 = place_run(t, list, empty_array(n), tails0, list.len() as int).0;
            let r = l_run(t, ty, sa1, heads0, 0);
            let sa2 = r.0;
            &&& l_safe(t, ty, sa1, heads0, 0)
            &&& sa1.len() == n
            &&& sa2.len() == n
            &&& forall|x: int| 0 <= x < n && sa1[x] != empty_slot() ==> #[trigger] sa2[x] == sa1[x]
            &&& forall|x: int|
                0 <= x < n && #[trigger] sa2[x] != sa1[x] ==> sa1[x] == empty_slot() && sa2[x] < n && ty[sa2[x]
                    as int] == L
            &&& forall|j: int| 0 <= j < n && ty[j] == L ==> exists|x: int| 0 <= x < n && #[trigger] sa2[x] == j
            &&& forall|x: int, y: int|
                0 <= x < y < n && #[trigger] sa2[x] == #[trigger] sa2[y] ==> sa2[x] == empty_slot()
            &&& r.1.len() == heads0.len()
            &&& forall|c: int| 0 <= c < heads0.len() ==> #[trigger] r.1[c] == heads0[c] + count(n, l_sym(t, c))
        }),
{
    let ty = types_of(t);
    let n = t.len() as int;
    let m = t[n - 1];
    let u = shift(t, m);
    lemma_shift_passes(t, list, heads0, tails0);
    let hu = from_symbol(heads0, m);
    let tu = from_symbol(tails0, m);
    let sigma = list_rank(list);
    lemma_place(u, list, tu);
    let sa1 = place_run(t, list, empty_array(n), tails0, list.len() as int).0;
    let r = l_run(t, ty, sa1, heads0, 0);
    let sa2 = r.0;
    let ru = l_run(u, ty, sa1, hu, 0);
    lemma_l_pass(u, sigma, sa1, hu);
    lemma_l_start(u, sigma, sa1, hu);
    lemma_l_run(u, sigma, sa1, hu, hu, 0);
    assert forall|x: int| 0 <= x < n && sa1[x] != empty_slot() implies #[trigger] sa2[x] == sa1[x] by {
    }
    assert forall|x: int| 0 <= x < n && #[trigger] sa2[x] != sa1[x] implies sa1[x] == empty_slot() && sa2[x] < n
        && ty[sa2[x] as int] == L by {
    }
    assert forall|j: int| 0 <= j < n && ty[j] == L implies exists|x: int| 0 <= x < n && #[trigger] sa2[x] == j by {
        lemma_pos_range(u, sigma, j);
        assert(sa2[pos(u, sigma, j)] == j);
    }
    assert forall|x: int, y: int| 0 <= x < y < n && #[trigger] sa2[x] == #[trigger] sa2[y] implies sa2[x]
        == empty_slot() by {
        if sa2[x] != empty_slot() {
            let v = sa2[x] as int;
            if is_lms_at(ty, v) {
                assert(ty[v] == S);
            }
        }
    }
    assert forall|c: int| 0 <= c < heads0.len() implies #[trigger] r.1[c] == heads0[c] + count(n, l_sym(t, c)) by {
        if c < m {
            assert(r.1[c] == r.1.subrange(0, m)[c]);
            assert(heads0[c] == heads0.subrange(0, m)[c]);
            assert forall|k: int| 0 <= k < n implies !#[trigger] l_sym(t, c)(k) by {
            }
            lemma_count_none(n, l_sym(t, c));
        } else {
            let c2 = c - m;
            assert(r.1[c] == from_symbol(r.1, m)[c2]);
            assert(heads0[c] == hu[c2]);
            assert forall|k: int| 0 <= k < n implies #[trigger] l_done(u, sigma, c2, n)(k) == l_sym(t, c)(k) by {
                if ty[k] == L {
                    lemma_l_succ_before(u, sigma, k);
                    lemma_posl_range(u, sigma, k + 1);
                }
            }
            lemma_count_ext(n, l_done(u, sigma, c2, n), l_sym(t, c));
        }
    }
}

/// With the seeds in increasing suffix order, the L pass puts every L
/// position into the slot it has in the suffix array.
pub proof fn lemma_l_pass_sorted(t: Seq<int>, list: Seq<usize>, heads0: Seq<usize>, tails0: Seq<usize>)
    requires
        sentinel_text(t),
        2 <= t.len() <= usize::MAX,
        sorted_seeds(t, list),
        bucket_bounds(t, heads0, tails0),
    ensures
        ({
            let ty = types_of(t);
            let n = t.len() as int;
            let sa1 = place_run(t, list, empty_array(n), tails0, list.len() as int).0;
            let sa2 = l_run(t, ty, sa1, heads0, 0).0;
            &&& l_safe(t, ty, sa1, heads0, 0)
            &&& forall|j: int| 0 <= j < n && ty[j] == L ==> 0 <= #[trigger] suffix_rank(t, j) < n && sa2[suffix_rank(t, j)] == j
        }),
{
    let ty = types_of(t);
    let n = t.len() as int;
    let m = t[n - 1];
    let u = shift(t, m);
    lemma_shift_passes(t, list, heads0, tails0);
    let hu = from_symbol(heads0, m);
    let tu = from_symbol(tails0, m);
    let sigma = list_rank(list);
    assert forall|a: int, b: int| 0 <= a < b < list.len() implies slt(u, #[trigger] list[a] as int, #[trigger] list[b] as int) by {
        lemma_shift_slt(t, m, list[a] as int, list[b] as int);
    }
    lemma_sorted_list_ranks(u, list);
    lemma_place(u, list, tu);
    let sa1 = place_run(t, list, empty_array(n), tails0, list.len() as int).0;
    let sa2 = l_run(t, ty, sa1, heads0, 0).0;
    lemma_l_pass(u, sigma, sa1, hu);
    assert forall|j: int| 0 <= j < n && ty[j] == L implies 0 <= #[trigger] suffix_rank(t, j) < n && sa2[suffix_rank(t, j)] == j by {
        assert forall|k: int| 0 <= k < n implies #[trigger] below(u, sigma, j)(k) == (|k: int| slt(t, k, j))(k) by {
            lemma_shift_slt(t, m, k, j);
            if k == j {
                lemma_ford_irrefl(u, ty, sigma, j, false);
                lemma_slt_irrefl(t, j);
            } else {
                lemma_ford_slt_sorted(u, sigma, k, j, false);
            }
        }
        lemma_count_ext(n, below(u, sigma, j), |k: int| slt(t, k, j));
        lemma_pos_range(u, sigma, j);
    }
}

/// Induced sorting from seeds in any order sorts the LMS substrings: the
/// result lists every position once, and of two leftmost S positions the one
/// listed first has the smaller suffix or an equal LMS substring.
pub proof fn lemma_lms_substrings_sorted(t: Seq<int>, list: Seq<usize>, heads0: Seq<usize>, tails0: Seq<usize>)
    requires
        sentinel_text(t),
        2 <= t.len() <= usize::MAX,
        seed_list(t, list),
        bucket_bounds(t, heads0, tails0),
    ensures
        ({
            let ty = types_of(t);
            let n = t.len() as int;
            let sa1 = place_run(t, list, empty_array(n), tails0, list.len() as int).0;
            let sa2 = l_run(t, ty, sa1, heads0, 0).0;
            let sa3 = s_run(t, ty, sa2, tails0, n).0;
            &&& s_safe(t, ty, sa2, tails0, n)
            &&& sa3.len() == n
            &&& forall|x: int| 0 <= x < n ==> #[trigger] sa3[x] < n
            &&& forall|x: int, y: int| 0 <= x < y < n ==> #[trigger] sa3[x] != #[trigger] sa3[y]
            &&& forall|x: int, y: int|
                0 <= x < y < n && is_lms_at(ty, #[trigger] sa3[x] as int) && is_lms_at(ty, #[trigger] sa3[y] as int)
                    ==> lms_equal(t, ty, sa3[x] as int, sa3[y] as int) || slt(t, sa3[x] as int, sa3[y] as int)
        }),
{
    let ty = types_of(t);
    let n = t.len() as int;
    let m = t[n - 1];
    let u = shift(t, m);
    lemma_shift_passes(t, list, heads0, tails0);
    let hu = from_symbol(heads0, m);
    let tu = from_symbol(tails0, m);
    let sigma = list_rank(list);
    lemma_induced_sort(u, list, hu, tu);
    let sa1 = place_run(t, list, empty_array(n), tails0, list.len() as int).0;
    let sa2 = l_run(t, ty, sa1, heads0, 0).0;
    let sa3 = s_run(t, ty, sa2, tails0, n).0;
    lemma_induced_slots(u, sigma, sa3);
    lemma_lms_of(u);
    lemma_names_final(u, sigma, sa3);
    let names = name_run(u, ty, sa3, n).names;
    assert forall|x: int, y: int| 0 <= x < y < n implies #[trigger] sa3[x] != #[trigger] sa3[y] by {
        assert(pos(u, sigma, sa3[x] as int) == x);
        assert(pos(u, sigma, sa3[y] as int) == y);
    }
    assert forall|x: int, y: int|
        0 <= x < y < n && is_lms_at(ty, #[trigger] sa3[x] as int) && is_lms_at(ty, #[trigger] sa3[y] as int)
        implies lms_equal(t, ty, sa3[x] as int, sa3[y] as int) || slt(t, sa3[x] as int, sa3[y] as int) by {
        let p = sa3[x] as int;
        let q = sa3[y] as int;
        assert(pos(u, sigma, p) == x && pos(u, sigma, q) == y);
        assert(names[p] <= names[q]);
        lemma_shift_lms_equal(t, ty, m, p, q);
        lemma_shift_slt(t, m, p, q);
    }
}

/// The occurrences of `c` among the first `k` positions of `t` are its
/// multiplicity in that prefix.
proof fn lemma_count_is_multiplicity(t: Seq<int>, c: int, k: int)
    requires
        0 <= k <= t.len(),
    ensures
        count(k, has_sym(t, c)) == t.subrange(0, k).to_multiset().count(c),
    decreases k,
{
    broadcast use vstd::seq_lib::to_multiset_build, vstd::multiset::group_multiset_axioms;

    if k == 0 {
        assert(t.subrange(0, 0) =~= Seq::<int>::empty());
        assert(Seq::<int>::empty().to_multiset() =~= vstd::multiset::Multiset::<int>::empty()) by {
            vstd::seq_lib::to_multiset_len(Seq::<int>::empty());
        }
    } else {
        lemma_count_is_multiplicity(t, c, k - 1);
        assert(t.subrange(0, k) =~= t.subrange(0, k - 1).push(t[k - 1]));
    }
}

/// The largest symbol of a prefix is 0 or one of its symbols, and no symbol
/// of the prefix exceeds it.
proof fn lemma_max_upto_member(t: Seq<int>, k: int)
    requires
        0 <= k <= t.len(),
    ensures
        max_upto(t, k) >= 0,
        forall|j: int| 0 <= j < k ==> t[j] <= max_upto(t, k),
        max_upto(t, k) == 0 || exists|j: int| 0 <= j < k && t[j] == max_upto(t, k),
    decreases k,
{
    if k > 0 {
        lemma_max_upto_member(t, k - 1);
    }
}

/// The largest symbol of a text is at most that of any text with the same
/// symbols.
proof fn lemma_max_upto_le(t1: Seq<int>, t2: Seq<int>)
    requires
        t1.to_multiset() == t2.to_multiset(),
    ensures
        max_upto(t1, t1.len() as int) <= max_upto(t2, t2.len() as int),
{
    broadcast use vstd::seq_lib::to_multiset_contains;

    let m1 = max_upto(t1, t1.len() as int);
    lemma_max_upto_member(t1, t1.len() as int);
    lemma_max_upto_member(t2, t2.len() as int);
    if m1 != 0 {
        assert(t1.contains(m1));
        assert(t1.to_multiset().count(m1) > 0);
        assert(t2.contains(m1));
    }
}

/// The frequency table depends only on how often each symbol occurs: a text
/// and any permutation of it have tables of the same size with the same
/// entries.
pub proof fn lemma_frequencies_permutation(t1: Seq<int>, t2: Seq<int>)
    requires
        t1.to_multiset() == t2.to_multiset(),
    ensures
        alphabet_size(t1) == alphabet_size(t2),
        forall|c: int| #[trigger] occurrences(t1, c) == occurrences(t2, c),
{
    lemma_max_upto_le(t1, t2);
    lemma_max_upto_le(t2, t1);
    assert forall|c: int| #[trigger] occurrences(t1, c) == occurrences(t2, c) by {
        lemma_count_is_multiplicity(t1, c, t1.len() as int);
        lemma_count_is_multiplicity(t2, c, t2.len() as int);
        assert(t1.subrange(0, t1.len() as int) =~= t1);
        assert(t2.subrange(0, t2.len() as int) =~= t2);
    }
}

/// The number a string of decimal digits stands for, most significant first.
pub open spec fn digits_value(s: Seq<char>) -> int
    decreases s.len(),
{
    if s.len() == 0 {
        0
    } else {
        digits_value(s.drop_last()) * 10 + (s.last() as int - 48)
    }
}

/// `s` is the decimal representation of a number: one or more digits, with
/// no leading zero unless it is the single digit 0.
pub open spec fn is_decimal(s: Seq<char>) -> bool {
    &&& s.len() >= 1
    &&& forall|k: int| 0 <= k < s.len() ==> 48 <= #[trigger] (s[k] as int) <= 57
    &&& (s.len() > 1 ==> s[0] != '0')
}

/// `decimal(x)` is the decimal representation of `x`: it reads back as `x`.
pub proof fn lemma_decimal_reads_back(x: nat)
    ensures
        is_decimal(decimal(x)),
        digits_value(decimal(x)) == x,
    decreases x,
{
    let s = decimal(x);
    if x < 10 {
        assert(s.drop_last() =~= Seq::<char>::empty());
        assert(s.last() as int == 48 + x);
        assert(digits_value(s) == digits_value(s.drop_last()) * 10 + (s.last() as int - 48));
    } else {
        let d = (x % 10) as nat;
        lemma_decimal_reads_back(x / 10);
        let r = decimal(x / 10);
        assert(s == r.push(((48 + d) as u8) as char));
        assert(s.drop_last() =~= r);
        assert(s[0] == r[0]);
        assert(x / 10 >= 1);
        if r.len() == 1 {
            assert(r[0] != '0') by {
                assert(digits_value(r) == digits_value(r.drop_last()) * 10 + (r.last() as int - 48));
                assert(r.drop_last() =~= Seq::<char>::empty());
            }
        }
        assert(x == (x / 10) * 10 + x % 10) by (nonlinear_arith);
        assert(s.last() as int == 48 + d);
        assert(digits_value(s) == digits_value(r) * 10 + d);
    }
}

/// Every position shows in the index row as its own decimal representation.
pub proof fn lemma_index_cells(k: int)
    requires
        0 <= k,
    ensures
        is_decimal(index_cells()(k)),
        digits_value(index_cells()(k)) == k,
{
    lemma_decimal_reads_back(k as nat);
}

/// A filled slot of the suffix array row shows the decimal representation of
/// its position, and an empty slot shows a dot.
pub proof fn lemma_slot_cells(sa: Seq<usize>, i: int)
    requires
        0 <= i < sa.len(),
    ensures
        sa[i] == usize::MAX ==> slot_cells(sa)(i) == seq!['.'],
        sa[i] != usize::MAX ==> is_decimal(slot_cells(sa)(i)) && digits_value(slot_cells(sa)(i)) == sa[i],
{
    lemma_decimal_reads_back(sa[i] as nat);
}

/// A byte shows as one character: an ASCII byte as the character with its
/// code, any other byte as a dot.
pub proof fn lemma_byte_display(b: u8)
    ensures
        b < 128 ==> b.spec_display().len() == 1 && b.spec_display()[0] as int == b as int,
        b >= 128 ==> b.spec_display() == seq!['.'],
{
}

/// A byte's index is its value: the text of a byte string is the byte values.
pub proof fn lemma_byte_index(bytes: Seq<u8>)
    ensures
        sym_seq(bytes).len() == bytes.len(),
        forall|k: int| 0 <= k < bytes.len() ==> #[trigger] sym_seq(bytes)[k] == bytes[k] as int,
        forall|b: u8| #[trigger] b.spec_index() == b as nat,
{
}

/// Counting byte `b` over a prefix of a byte string gives its multiplicity.
proof fn lemma_byte_count(bytes: Seq<u8>, b: u8, k: int)
    requires
        0 <= k <= bytes.len(),
    ensures
        count(k, has_sym(sym_seq(bytes), b as int)) == bytes.subrange(0, k).to_multiset().count(b),
    decreases k,
{
    broadcast use vstd::seq_lib::to_multiset_build, vstd::multiset::group_multiset_axioms;

    if k == 0 {
        assert(bytes.subrange(0, 0) =~= Seq::<u8>::empty());
        assert(Seq::<u8>::empty().to_multiset() =~= vstd::multiset::Multiset::<u8>::empty()) by {
            vstd::seq_lib::to_multiset_len(Seq::<u8>::empty());
        }
    } else {
        lemma_byte_count(bytes, b, k - 1);
        assert(bytes.subrange(0, k) =~= bytes.subrange(0, k - 1).push(bytes[k - 1]));
        assert(sym_seq(bytes)[k - 1] == bytes[k - 1] as int);
    }
}

/// The frequency table of a byte string has one entry per byte value, and the
/// entry of byte `b` is the number of times `b` occurs.
pub proof fn lemma_byte_frequencies(bytes: Seq<u8>)
    ensures
        alphabet_size(sym_seq(bytes)) == 256,
        forall|b: u8| #[trigger] occurrences(sym_seq(bytes), b as int) == bytes.to_multiset().count(b),
{
    let t = sym_seq(bytes);
    lemma_max_upto_member(t, t.len() as int);
    assert forall|b: u8| #[trigger] occurrences(sym_seq(bytes), b as int) == bytes.to_multiset().count(b) by {
        lemma_byte_count(bytes, b, bytes.len() as int);
        assert(bytes.subrange(0, bytes.len() as int) =~= bytes);
    }
    if max_upto(t, t.len() as int) != 0 {
        let j = choose|j: int| 0 <= j < t.len() && t[j] == max_upto(t, t.len() as int);
        assert(t[j] == bytes[j] as int);
    }
}

/// Naming the LMS substrings of an induced array (what `summarize` returns)
/// on a text whose last symbol is smaller than all others, with the seeds
/// placed in any order: the named positions are the leftmost S positions in
/// increasing order; the names run from 1 to the last name; two positions
/// with the same name have equal LMS substrings; a smaller name means a
/// smaller suffix; LMS substrings equal up to and including their last symbol
/// (`reach` with no flag) get the same name; names never decrease along the
/// array; and when the last name is the number of leftmost S positions, the
/// names are all different.
pub proof fn lemma_naming(t: Seq<int>, list: Seq<usize>, heads0: Seq<usize>, tails0: Seq<usize>)
    requires
        sentinel_text(t),
        2 <= t.len() <= usize::MAX,
        seed_list(t, list),
        bucket_bounds(t, heads0, tails0),
    ensures
        ({
            let ty = types_of(t);
            let n = t.len() as int;
            let sa1 = place_run(t, list, empty_array(n), tails0, list.len() as int).0;
            let sa2 = l_run(t, ty, sa1, heads0, 0).0;
            let sa3 = s_run(t, ty, sa2, tails0, n).0;
            let st = name_run(t, ty, sa3, n);
            let names = compact(st.names, n).0;
            let offsets = compact(st.names, n).1;
            &&& offsets == lms_of(ty)
            &&& names.len() == offsets.len()
            &&& forall|a: int| 0 <= a < names.len() ==> 1 <= #[trigger] names[a] <= st.name
            &&& forall|a: int, b: int|
                0 <= a < names.len() && 0 <= b < names.len() && #[trigger] names[a] == #[trigger] names[b]
                    ==> lms_equal(t, ty, offsets[a] as int, offsets[b] as int)
            &&& forall|a: int, b: int|
                0 <= a < names.len() && 0 <= b < names.len() && #[trigger] names[a] < #[trigger] names[b]
                    ==> slt(t, offsets[a] as int, offsets[b] as int)
            &&& forall|a: int, b: int|
                0 <= a < names.len() && 0 <= b < names.len() && reach(
                    t,
                    ty,
                    #[trigger] offsets[a] as int,
                    #[trigger] offsets[b] as int,
                    false,
                ) ==> names[a] == names[b]
            &&& forall|x: int, y: int|
                0 <= x < y < n && is_lms_at(ty, #[trigger] sa3[x] as int) && is_lms_at(ty, #[trigger] sa3[y] as int)
                    ==> st.names[sa3[x] as int] <= st.names[sa3[y] as int]
            &&& st.name == names.len() ==> forall|a: int, b: int|
                0 <= a < b < names.len() ==> #[trigger] names[a] != #[trigger] names[b]
        }),
{
    let ty = types_of(t);
    let n = t.len() as int;
    let m = t[n - 1];
    let u = shift(t, m);
    lemma_shift_passes(t, list, heads0, tails0);
    let hu = from_symbol(heads0, m);
    let tu = from_symbol(tails0, m);
    let sigma = list_rank(list);
    lemma_induced_sort(u, list, hu, tu);
    let sa1 = place_run(t, list, empty_array(n), tails0, list.len() as int).0;
    let sa2 = l_run(t, ty, sa1, heads0, 0).0;
    let sa3 = s_run(t, ty, sa2, tails0, n).0;
    lemma_induced_slots(u, sigma, sa3);
    lemma_lms_of(u);
    lemma_names_final(u, sigma, sa3);
    lemma_name_run(u, sigma, sa3, n);
    lemma_shift_name_run(t, ty, m, sa3, n);
    let st = name_run(t, ty, sa3, n);
    let nm = st.names;
    lemma_compact(u, nm, n);
    let names = compact(nm, n).0;
    let offsets = compact(nm, n).1;
    assert(offsets == lms_of(ty));
    assert forall|a: int| 0 <= a < offsets.len() implies is_lms_at(ty, #[trigger] offsets[a] as int) && offsets[a]
        < n by {
        crate::theory::seeds::lemma_list_rank(offsets, a);
    }
    assert forall|a: int, b: int|
        0 <= a < names.len() && 0 <= b < names.len() && #[trigger] names[a] == #[trigger] names[b] implies lms_equal(
        t,
        ty,
        offsets[a] as int,
        offsets[b] as int,
    ) by {
        assert(is_lms_at(ty, offsets[a] as int) && is_lms_at(ty, offsets[b] as int));
        lemma_shift_lms_equal(t, ty, m, offsets[a] as int, offsets[b] as int);
    }
    assert forall|a: int, b: int|
        0 <= a < names.len() && 0 <= b < names.len() && #[trigger] names[a] < #[trigger] names[b] implies slt(
        t,
        offsets[a] as int,
        offsets[b] as int,
    ) by {
        assert(is_lms_at(ty, offsets[a] as int) && is_lms_at(ty, offsets[b] as int));
        lemma_shift_slt(t, m, offsets[a] as int, offsets[b] as int);
    }
    assert forall|a: int, b: int|
        0 <= a < names.len() && 0 <= b < names.len() && reach(
            t,
            ty,
            #[trigger] offsets[a] as int,
            #[trigger] offsets[b] as int,
            false,
        ) implies names[a] == names[b] by {
        let p = offsets[a] as int;
        let q = offsets[b] as int;
        assert(is_lms_at(ty, p) && is_lms_at(ty, q));
        lemma_shift_reach(t, ty, m, p, q, false);
        lemma_pos_range(u, sigma, p);
        lemma_pos_range(u, sigma, q);
        assert(crate::theory::nameproof::seen(u, sigma, n)(p));
        assert(crate::theory::nameproof::seen(u, sigma, n)(q));
    }
    assert forall|x: int, y: int|
        0 <= x < y < n && is_lms_at(ty, #[trigger] sa3[x] as int) && is_lms_at(ty, #[trigger] sa3[y] as int) implies nm[sa3[x] as int]
        <= nm[sa3[y] as int] by {
        assert(pos(u, sigma, sa3[x] as int) == x);
        assert(pos(u, sigma, sa3[y] as int) == y);
    }
    if st.name == names.len() {
        assert forall|a: int, b: int| 0 <= a < b < names.len() implies #[trigger] names[a] != #[trigger] names[b] by {
            assert(offsets.no_duplicates());
            assert(is_lms_at(ty, offsets[a] as int) && is_lms_at(ty, offsets[b] as int));
        }
    }
}

/// A `usize` symbol's index is its value, and it shows as its decimal
/// representation.
pub proof fn lemma_usize_symbol(x: usize)
    ensures
        x.spec_index() == x as nat,
        is_decimal(x.spec_display()),
        digits_value(x.spec_display()) == x,
{
    lemma_decimal_reads_back(x as nat);
}

/// A type shows as the letter S, L, or `?` for any other value.
pub proof fn lemma_type_cells(ty: Seq<u8>, i: int)
    requires
        0 <= i < ty.len(),
    ensures
        type_cells(ty)(i).len() == 1,
        type_cells(ty)(i)[0] == 'S' <==> ty[i] == S,
        type_cells(ty)(i)[0] == 'L' <==> ty[i] == L,
        type_cells(ty)(i)[0] == '?' <==> (ty[i] != S && ty[i] != L),
{
}

/// A padded cell is the cell, then spaces up to three characters, then one
/// more space.
pub proof fn lemma_padded(cell: Seq<char>)
    ensures
        padded(cell).len() == (if cell.len() < 3 { 3 } else { cell.len() as int }) + 1,
        padded(cell).subrange(0, cell.len() as int) == cell,
        forall|k: int| cell.len() <= k < padded(cell).len() ==> #[trigger] padded(cell)[k] == ' ',
{
    assert(padded(cell).subrange(0, cell.len() as int) =~= cell);
}

} // verus!
