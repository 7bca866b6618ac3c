//! Symbol frequencies and the bucket boundaries derived from them.
use vstd::prelude::*;
use crate::symbol::{Symbol, sym_seq};
use crate::theory::count::count;

verus! {

/// The predicate "position `k` of `t` holds symbol `c`".
pub open spec fn has_sym(t: Seq<int>, c: int) -> spec_fn(int) -> bool {
    |k: int| t[k] == c
}

/// The number of occurrences of symbol `c` in `t`.
pub open spec fn occurrences(t: Seq<int>, c: int) -> nat {
    count(t.len() as int, has_sym(t, c))
}

/// The largest symbol among the first `k` positions of `t` (0 if none).
pub open spec fn max_upto(t: Seq<int>, k: int) -> int
    decreases k,
{
    if k <= 0 {
        0
    } else if max_upto(t, k - 1) < t[k - 1] {
        t[k - 1]
    } else {
        max_upto(t, k - 1)
    }
}

/// The size of the frequency table of `t`: one more than its largest symbol,
/// and at least 256.
pub open spec fn alphabet_size(t: Seq<int>) -> int {
    let m = max_upto(t, t.len() as int) + 1;
    if m < 256 {
        256
    } else {
        m
    }
}

/// The sum of the first `i` entries of `f`.
pub open spec fn prefix_sum(f: Seq<usize>, i: int) -> int
    decreases i,
{
    if i <= 0 {
        0
    } else {
        prefix_sum(f, i - 1) + f[i - 1]
    }
}

pub proof fn lemma_max_upto(t: Seq<int>, k: int)
    requires
        0 <= k <= t.len(),
        forall|j: int| 0 <= j < t.len() ==> t[j] >= 0,
    ensures
        max_upto(t, k) >= 0,
        forall|j: int| 0 <= j < k ==> t[j] <= max_upto(t, k),
    decreases k,
{
    if k > 0 {
        lemma_max_upto(t, k - 1);
    }
}

/// How often each symbol occurs in the text. The table covers every symbol up
/// to the largest one in the text, and at least the 256 byte values.
pub fn get_frequencies<T: Symbol>(bytes: &[T]) -> (freq: Vec<usize>)
    requires
        forall|k: int| 0 <= k < bytes@.len() ==> (#[trigger] bytes@[k]).spec_index() < usize::MAX,
    ensures
        freq@.len() == alphabet_size(sym_seq(bytes@)),
        forall|c: int| 0 <= c < freq@.len() ==> freq@[c] == occurrences(sym_seq(bytes@), c),
{
    let ghost t = sym_seq(bytes@);
    let n = bytes.len();
    let mut max_symbol: usize = 0;
    let mut i: usize = 0;
    while i < n
        invariant
            n == bytes@.len(),
            t == sym_seq(bytes@),
            0 <= i <= n,
            max_symbol == max_upto(t, i as int),
            max_symbol < usize::MAX,
            forall|k: int| 0 <= k < bytes@.len() ==> (#[trigger] bytes@[k]).spec_index() < usize::MAX,
        decreases n - i,
    {
        let v = bytes[i].as_index();
        if v > max_symbol {
            max_symbol = v;
        }
        i = i + 1;
    }
    let size = if max_symbol + 1 < 256 { 256 } else { max_symbol + 1 };
    let mut freq: Vec<usize> = vec![0usize; size];
    proof {
        lemma_max_upto(t, n as int);
    }
    let mut i: usize = 0;
    while i < n
        invariant
            n == bytes@.len(),
            t == sym_seq(bytes@),
            t.len() == n,
            0 <= i <= n,
            freq@.len() == size,
            size == alphabet_size(t),
            forall|j: int| 0 <= j < n ==> t[j] < size,
            forall|c: int| 0 <= c < size ==> #[trigger] freq@[c] == count(i as int, has_sym(t, c)),
            forall|c: int| 0 <= c < size ==> #[trigger] freq@[c] <= i,
        decreases n - i,
    {
        let v = bytes[i].as_index();
        assert(t[i as int] == v);
        let old_count = freq[v];
        freq.set(v, old_count + 1);
        assert forall|c: int| 0 <= c < size implies #[trigger] freq@[c] == count(i + 1, has_sym(t, c)) by {
            assert(has_sym(t, c)(i as int) == (t[i as int] == c));
        }
        i = i + 1;
    }
    freq
}

/// The first and last slot of each symbol's bucket in the suffix array.
/// Buckets follow each other in symbol order and have the size of the symbol's
/// frequency; a symbol that does not occur gets 0 for both.
pub fn get_heads_tails(freq: &[usize]) -> (r: (Vec<usize>, Vec<usize>))
    requires
        prefix_sum(freq@, freq@.len() as int) <= usize::MAX,
    ensures
        r.0@.len() == freq@.len(),
        r.1@.len() == freq@.len(),
        forall|c: int| 0 <= c < freq@.len() && freq@[c] != 0 ==> #[trigger] r.0@[c] == prefix_sum(freq@, c),
        forall|c: int| 0 <= c < freq@.len() && freq@[c] != 0 ==> #[trigger] r.1@[c] == prefix_sum(freq@, c + 1) - 1,
        forall|c: int| 0 <= c < freq@.len() && freq@[c] == 0 ==> #[trigger] r.0@[c] == 0,
        forall|c: int| 0 <= c < freq@.len() && freq@[c] == 0 ==> #[trigger] r.1@[c] == 0,
{
    let n = freq.len();
    let mut cur_start: usize = 0;
    let mut heads: Vec<usize> = vec![0usize; n];
    let mut tails: Vec<usize> = vec![0usize; n];
    let mut i: usize = 0;
    proof {
        lemma_prefix_sum_mono(freq@, 0, n as int);
    }
    while i < n
        invariant
            n == freq@.len(),
            0 <= i <= n,
            heads@.len() == n,
            tails@.len() == n,
            cur_start == prefix_sum(freq@, i as int),
            prefix_sum(freq@, n as int) <= usize::MAX,
            forall|j: int, k: int| 0 <= j <= k <= n ==> prefix_sum(freq@, j) <= prefix_sum(freq@, k),
            forall|c: int| 0 <= c < i && freq@[c] != 0 ==> #[trigger] heads@[c] == prefix_sum(freq@, c),
            forall|c: int| 0 <= c < i && freq@[c] != 0 ==> #[trigger] tails@[c] == prefix_sum(freq@, c + 1) - 1,
            forall|c: int| 0 <= c < n && (c >= i || freq@[c] == 0) ==> #[trigger] heads@[c] == 0,
            forall|c: int| 0 <= c < n && (c >= i || freq@[c] == 0) ==> #[trigger] tails@[c] == 0,
        decreases n - i,
    {
        assert(prefix_sum(freq@, i + 1) == cur_start + freq@[i as int]);
        assert(prefix_sum(freq@, i + 1) <= prefix_sum(freq@, n as int));
        if freq[i] != 0 {
            heads.set(i, cur_start);
            cur_start = cur_start + freq[i];
            tails.set(i, cur_start - 1);
        }
        i = i + 1;
    }
    (heads, tails)
}

pub proof fn lemma_prefix_sum_mono(f: Seq<usize>, lo: int, hi: int)
    requires
        0 <= lo <= hi <= f.len(),
    ensures
        forall|j: int, k: int| lo <= j <= k <= hi ==> prefix_sum(f, j) <= prefix_sum(f, k),
    decreases hi - lo,
{
    if lo < hi {
        lemma_prefix_sum_mono(f, lo, hi - 1);
        assert forall|j: int, k: int| lo <= j <= k <= hi implies prefix_sum(f, j) <= prefix_sum(f, k) by {
            if k == hi && j < hi {
                assert(prefix_sum(f, hi) == prefix_sum(f, hi - 1) + f[hi - 1]);
            }
        }
    }
}

} // verus!
