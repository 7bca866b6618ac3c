//! The longest repeated substring of a text, read off its suffix array with
//! the longest common prefixes of neighbouring suffixes.
use vstd::prelude::*;
use crate::symbol::sym_seq;
use crate::theory::order::{slt, lemma_slt_irrefl, lemma_slt_asym};
use crate::theory::seeds::in_list;
use crate::sais::{is_suffix_array, build_sa_is};

verus! {

/// The length of the longest common prefix of the parts of `b` that start
/// at `i` and `j` and end before `n`.
pub open spec fn lcp(b: Seq<int>, n: int, i: int, j: int) -> nat
    decreases n - i,
{
    if 0 <= i < n && 0 <= j < n && i < b.len() && j < b.len() && b[i] == b[j] {
        1 + lcp(b, n, i + 1, j + 1)
    } else {
        0
    }
}

/// The parts of `b` from `i` and from `j` agree on their first `l` symbols.
pub open spec fn agree(b: Seq<int>, i: int, j: int, l: int) -> bool {
    forall|d: int| 0 <= d < l ==> #[trigger] b[i + d] == b[j + d]
}

/// A common prefix of length at least `l` is `l` matching symbols.
pub proof fn lemma_lcp_prefix(b: Seq<int>, n: int, i: int, j: int, l: int)
    requires
        0 <= l,
        n <= b.len(),
        0 <= i <= n,
        0 <= j <= n,
    ensures
        lcp(b, n, i, j) >= l <==> (i + l <= n && j + l <= n && agree(b, i, j, l)),
    decreases l,
{
    if l > 0 && i < n && j < n {
        lemma_lcp_prefix(b, n, i + 1, j + 1, l - 1);
        if agree(b, i, j, l) {
            assert forall|d: int| 0 <= d < l - 1 implies #[trigger] b[(i + 1) + d] == b[(j + 1) + d] by {
                assert(b[i + (d + 1)] == b[j + (d + 1)]);
            }
            assert(b[i + 0] == b[j + 0]);
        }
        if i < n && j < n && b[i] == b[j] && agree(b, i + 1, j + 1, l - 1) {
            assert forall|d: int| 0 <= d < l implies #[trigger] b[i + d] == b[j + d] by {
                if d > 0 {
                    assert(b[(i + 1) + (d - 1)] == b[(j + 1) + (d - 1)]);
                }
            }
        }
    }
}

/// A common prefix stops where the symbols differ or either part ends.
pub proof fn lemma_lcp_stop(b: Seq<int>, n: int, i: int, j: int, l: int)
    requires
        0 <= l,
        n <= b.len(),
        0 <= i <= n,
        0 <= j <= n,
        lcp(b, n, i, j) >= l,
        i + l >= n || j + l >= n || b[i + l] != b[j + l],
    ensures
        lcp(b, n, i, j) == l,
{
    lemma_lcp_prefix(b, n, i, j, l + 1);
    if lcp(b, n, i, j) >= l + 1 {
        assert(b[i + l] == b[j + l]);
    }
}

} // verus!

verus! {

pub proof fn lemma_lcp_symm(b: Seq<int>, n: int, i: int, j: int)
    ensures
        lcp(b, n, i, j) == lcp(b, n, j, i),
    decreases n - i,
{
    if 0 <= i < n && 0 <= j < n && i < b.len() && j < b.len() && b[i] == b[j] {
        lemma_lcp_symm(b, n, i + 1, j + 1);
    }
}

/// The terminator of `b` (its last symbol, at position `n`) occurs nowhere
/// else.
pub open spec fn terminated(b: Seq<int>, n: int) -> bool {
    &&& b.len() == n + 1
    &&& forall|k: int| 0 <= k < n ==> #[trigger] b[k] != b[n]
}

/// A suffix between two others in suffix order shares with the larger one at
/// least as long a prefix as the smaller one does.
pub proof fn lemma_lcp_sandwich(b: Seq<int>, n: int, x: int, y: int, z: int)
    requires
        terminated(b, n),
        0 <= x <= n,
        0 <= y <= n,
        0 <= z <= n,
        x == y || slt(b, x, y),
        slt(b, y, z),
    ensures
        lcp(b, n, y, z) >= lcp(b, n, x, z),
    decreases n - x,
{
    if x != y && lcp(b, n, x, z) > 0 {
        if y == n {
            assert(b[x] != b[n]);
        }
        lemma_lcp_sandwich(b, n, x + 1, y + 1, z + 1);
    }
}

/// The suffix array without the entry `v`.
pub open spec fn without(r: Seq<usize>, v: usize, k: int) -> Seq<usize>
    decreases k,
{
    if k <= 0 {
        Seq::empty()
    } else if r[k - 1] == v {
        without(r, v, k - 1)
    } else {
        without(r, v, k - 1).push(r[k - 1])
    }
}

/// Removing an entry that occurs once at index `p` shifts the later entries
/// down by one.
pub proof fn lemma_without(r: Seq<usize>, v: usize, p: int, k: int)
    requires
        0 <= p < r.len(),
        r[p] == v,
        forall|a: int| 0 <= a < r.len() && a != p ==> #[trigger] r[a] != v,
        0 <= k <= r.len(),
    ensures
        without(r, v, k).len() == if k <= p { k } else { k - 1 },
        forall|a: int| 0 <= a < without(r, v, k).len() ==> #[trigger] without(r, v, k)[a] == if a < p {
            r[a]
        } else {
            r[a + 1]
        },
    decreases k,
{
    if k > 0 {
        lemma_without(r, v, p, k - 1);
    }
}

/// The suffix array of `b` without the terminator's position, as a sorted
/// list of the other positions.
pub open spec fn sorted_positions(b: Seq<int>, n: int, f: Seq<usize>) -> bool {
    &&& f.len() == n
    &&& forall|a: int| 0 <= a < n ==> #[trigger] f[a] < n
    &&& forall|a: int, c: int| 0 <= a < c < n ==> slt(b, #[trigger] f[a] as int, #[trigger] f[c] as int)
    &&& forall|x: int| 0 <= x < n ==> #[trigger] in_list(f, x)
}

pub proof fn lemma_sorted_positions(b: Seq<int>, n: int, r: Seq<usize>)
    requires
        n >= 0,
        n <= usize::MAX,
        is_suffix_array(b, r),
        b.len() == n + 1,
    ensures
        sorted_positions(b, n, without(r, n as usize, r.len() as int)),
{
    assert(in_list(r, n));
    let p = choose|a: int| 0 <= a < r.len() && r[a] == n;
    assert forall|a: int| 0 <= a < r.len() && a != p implies #[trigger] r[a] != n as usize by {
        if a < p {
            assert(slt(b, r[a] as int, r[p] as int));
        } else {
            assert(slt(b, r[p] as int, r[a] as int));
        }
        if r[a] == n as usize {
            lemma_slt_irrefl(b, n);
        }
    }
    lemma_without(r, n as usize, p, r.len() as int);
    let f = without(r, n as usize, r.len() as int);
    assert forall|a: int| 0 <= a < n implies #[trigger] f[a] < n by {
        if a < p {
            assert(r[a] != n as usize);
        } else {
            assert(r[a + 1] != n as usize);
        }
    }
    assert forall|a: int, c: int| 0 <= a < c < n implies slt(b, #[trigger] f[a] as int, #[trigger] f[c] as int) by {
        let a2 = if a < p { a } else { a + 1 };
        let c2 = if c < p { c } else { c + 1 };
        assert(slt(b, r[a2] as int, r[c2] as int));
    }
    assert forall|x: int| 0 <= x < n implies #[trigger] in_list(f, x) by {
        assert(in_list(r, x));
        let q = choose|a: int| 0 <= a < r.len() && r[a] == x;
        assert(q != p);
        if q < p {
            assert(f[q] == x);
        } else {
            assert(f[q - 1] == x);
        }
    }
}

/// In a sorted list, suffix order is list order.
pub proof fn lemma_sorted_index(b: Seq<int>, n: int, f: Seq<usize>, a: int, c: int)
    requires
        sorted_positions(b, n, f),
        0 <= a < n,
        0 <= c < n,
        slt(b, f[a] as int, f[c] as int),
    ensures
        a < c,
{
    if c < a {
        assert(slt(b, f[c] as int, f[a] as int));
        lemma_slt_asym(b, f[c] as int, f[a] as int);
    } else if a == c {
        lemma_slt_irrefl(b, f[a] as int);
    }
}

/// The ranks: the index of every position in the sorted list.
pub open spec fn ranks_of(f: Seq<usize>, rk: Seq<usize>) -> bool {
    &&& rk.len() == f.len()
    &&& forall|x: int| 0 <= x < f.len() ==> #[trigger] rk[x] < f.len() && f[rk[x] as int] == x
}

/// The common prefix of position `i` with its predecessor in the sorted list
/// (0 for the first one).
pub open spec fn prev_lcp(b: Seq<int>, n: int, f: Seq<usize>, rk: Seq<usize>, i: int) -> nat {
    if rk[i] > 0 {
        lcp(b, n, i, f[rk[i] - 1] as int)
    } else {
        0
    }
}

/// The common prefix with the predecessor drops by at most one from each
/// position to the next.
pub proof fn lemma_kasai_step(b: Seq<int>, n: int, f: Seq<usize>, rk: Seq<usize>, i: int)
    requires
        terminated(b, n),
        sorted_positions(b, n, f),
        ranks_of(f, rk),
        0 <= i < n - 1,
        rk[i] > 0,
    ensures
        prev_lcp(b, n, f, rk, i) - 1 <= prev_lcp(b, n, f, rk, i + 1),
{
    let h = prev_lcp(b, n, f, rk, i);
    let nb = f[rk[i] - 1] as int;
    if h >= 2 {
        lemma_lcp_prefix(b, n, i, nb, 2);
        assert(b[i + 0] == b[nb + 0]);
        assert(slt(b, nb, f[rk[i] as int] as int));
        assert(slt(b, nb + 1, i + 1));
        assert(nb + 1 < n);
        assert(f[rk[nb + 1] as int] == nb + 1);
        assert(f[rk[i + 1] as int] == i + 1);
        lemma_sorted_index(b, n, f, rk[nb + 1] as int, rk[i + 1] as int);
        let p = f[rk[i + 1] - 1] as int;
        if rk[nb + 1] < rk[i + 1] - 1 {
            assert(slt(b, f[rk[nb + 1] as int] as int, p));
        }
        assert(slt(b, p, f[rk[i + 1] as int] as int));
        lemma_lcp_sandwich(b, n, nb + 1, p, i + 1);
        lemma_lcp_symm(b, n, i + 1, p);
        lemma_lcp_symm(b, n, i + 1, nb + 1);
    }
}

/// Any two positions share a prefix no longer than some position shares with
/// its predecessor in the sorted list.
pub proof fn lemma_pair_bound(b: Seq<int>, n: int, f: Seq<usize>, rk: Seq<usize>, x: int, y: int)
    requires
        terminated(b, n),
        sorted_positions(b, n, f),
        ranks_of(f, rk),
        0 <= x < n,
        0 <= y < n,
        x != y,
        rk[x] < rk[y],
    ensures
        lcp(b, n, x, y) <= prev_lcp(b, n, f, rk, y),
{
    let p = f[rk[y] - 1] as int;
    if rk[x] < rk[y] - 1 {
        assert(slt(b, f[rk[x] as int] as int, p));
    }
    assert(slt(b, p, f[rk[y] as int] as int));
    lemma_lcp_sandwich(b, n, x, p, y);
    lemma_lcp_symm(b, n, y, p);
}

} // verus!

verus! {

/// The length of the longest substring that occurs at least twice (possibly
/// overlapping) among the first `n` bytes. The byte at position `n` ends the
/// text: it occurs nowhere else, and every byte is positive.
pub fn longest_repeat(bytes: &[u8], n: usize) -> (answer: usize)
    requires
        bytes@.len() == n + 1,
        n + 3 <= usize::MAX,
        forall|k: int| 0 <= k < bytes@.len() ==> #[trigger] bytes@[k] > 0,
        forall|k: int| 0 <= k < n ==> #[trigger] bytes@[k] != bytes@[n as int],
    ensures
        forall|x: int, y: int|
            0 <= x < n && 0 <= y < n && x != y ==> #[trigger] lcp(sym_seq(bytes@), n as int, x, y) <= answer,
        n >= 2 ==> exists|x: int, y: int|
            0 <= x < n && 0 <= y < n && x != y && #[trigger] lcp(sym_seq(bytes@), n as int, x, y) == answer,
        n < 2 ==> answer == 0,
{
    let ghost b = sym_seq(bytes@);
    proof {
        assert forall|k: int| 0 <= k < n implies #[trigger] b[k] != b[n as int] by {
            assert(bytes@[k] != bytes@[n as int]);
        }
    }
    let sa = build_sa_is(bytes);
    let mut suffix_array: Vec<usize> = Vec::new();
    let mut k: usize = 0;
    assert(without(sa@, n, 0) == Seq::<usize>::empty());
    while k < sa.len()
        invariant
            0 <= k <= sa@.len(),
            bytes@.len() == n + 1,
            suffix_array@ == without(sa@, n, k as int),
        decreases sa@.len() - k,
    {
        if sa[k] != bytes.len() - 1 {
            suffix_array.push(sa[k]);
        }
        k = k + 1;
    }
    let ghost f = suffix_array@;
    proof {
        lemma_sorted_positions(b, n as int, sa@);
        assert forall|a: int, c: int| 0 <= a < n && 0 <= c < n && a != c implies #[trigger] f[a] != #[trigger] f[c] by {
            if a < c {
                assert(slt(b, f[a] as int, f[c] as int));
            } else {
                assert(slt(b, f[c] as int, f[a] as int));
            }
            if f[a] == f[c] {
                lemma_slt_irrefl(b, f[a] as int);
            }
        }
    }
    let mut ranks: Vec<usize> = vec![0usize; n];
    let mut i: usize = 0;
    while i < n
        invariant
            0 <= i <= n,
            f == suffix_array@,
            sorted_positions(b, n as int, f),
            forall|a: int, c: int| 0 <= a < n && 0 <= c < n && a != c ==> #[trigger] f[a] != #[trigger] f[c],
            ranks@.len() == n,
            forall|a: int| 0 <= a < i ==> #[trigger] ranks@[f[a] as int] == a,
        decreases n - i,
    {
        ranks.set(suffix_array[i], i);
        i = i + 1;
    }
    let ghost rk = ranks@;
    proof {
        assert forall|x: int| 0 <= x < f.len() implies #[trigger] rk[x] < f.len() && f[rk[x] as int] == x by {
            assert(in_list(f, x));
            let a = choose|a: int| 0 <= a < f.len() && f[a] == x;
            assert(rk[f[a] as int] == a);
        }
        assert(ranks_of(f, rk));
    }
    let mut l: usize = 0;
    let mut answer: usize = 0;
    let ghost mut witness: int = 0;
    let mut i: usize = 0;
    while i < n
        invariant
            0 <= i <= n,
            f == suffix_array@,
            rk == ranks@,
            terminated(b, n as int),
            sorted_positions(b, n as int, f),
            ranks_of(f, rk),
            b == sym_seq(bytes@),
            bytes@.len() == n + 1,
            i < n ==> l <= prev_lcp(b, n as int, f, rk, i as int),
            forall|j: int| 0 <= j < i ==> #[trigger] prev_lcp(b, n as int, f, rk, j) <= answer,
            answer == 0 || (0 <= witness < i && rk[witness] > 0 && answer == prev_lcp(b, n as int, f, rk, witness)),
        decreases n - i,
    {
        let sa_index = ranks[i];
        if sa_index == 0 {
            proof {
                if i + 1 < n {
                    assert(l == 0);
                }
            }
            i = i + 1;
            continue;
        }
        let neighbor = suffix_array[sa_index - 1];
        proof {
            lemma_lcp_prefix(b, n as int, i as int, neighbor as int, l as int);
        }
        while i + l < n && neighbor + l < n && bytes[i + l] == bytes[neighbor + l]
            invariant
                0 <= i < n,
                neighbor < n,
                b == sym_seq(bytes@),
                bytes@.len() == n + 1,
                l <= lcp(b, n as int, i as int, neighbor as int),
                i + l <= n,
                neighbor + l <= n,
            decreases n - i - l,
        {
            proof {
                lemma_lcp_prefix(b, n as int, i as int, neighbor as int, l as int);
                lemma_lcp_prefix(b, n as int, i as int, neighbor as int, l + 1);
                assert(b[i + l] == b[neighbor + l]);
            }
            l = l + 1;
        }
        proof {
            lemma_lcp_stop(b, n as int, i as int, neighbor as int, l as int);
        }
        if l > answer {
            answer = l;
            proof {
                witness = i as int;
            }
        }
        proof {
            if i + 1 < n {
                lemma_kasai_step(b, n as int, f, rk, i as int);
            }
        }
        if l > 0 {
            l = l - 1;
        }
        i = i + 1;
    }
    proof {
        assert forall|x: int, y: int| 0 <= x < n && 0 <= y < n && x != y implies #[trigger] lcp(b, n as int, x, y)
            <= answer by {
            assert(f[rk[x] as int] == x && f[rk[y] as int] == y);
            if rk[x] < rk[y] {
                lemma_pair_bound(b, n as int, f, rk, x, y);
            } else {
                assert(rk[x] != rk[y]);
                lemma_pair_bound(b, n as int, f, rk, y, x);
                lemma_lcp_symm(b, n as int, x, y);
            }
            assert(prev_lcp(b, n as int, f, rk, x) <= answer);
            assert(prev_lcp(b, n as int, f, rk, y) <= answer);
        }
        if n >= 2 {
            if answer == 0 {
                assert(lcp(b, n as int, 0, 1) <= answer);
            } else {
                let p = f[rk[witness] - 1] as int;
                assert(f[rk[witness] as int] == witness);
                assert(rk[witness] - 1 != rk[witness] as int);
                assert(p != witness);
                assert(lcp(b, n as int, witness, p) == answer);
            }
        }
    }
    answer
}

} // verus!
