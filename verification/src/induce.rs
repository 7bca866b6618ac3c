//! The three passes of induced sorting: placing the leftmost-S positions at
//! the ends of their buckets, inducing the L positions from left to right,
//! and inducing the S positions from right to left.
//!
//! Each pass is specified by the effect of a single step of its scan; the
//! functions below are proved to perform exactly those steps. What the passes
//! achieve is proved in `theory::seeds`, `theory::lpass` and `theory::spass`,
//! and stated for the passes on their own and together in `laws`.
use vstd::prelude::*;
use crate::symbol::{Symbol, sym_seq};
use crate::types::{S, L};

verus! {

/// The value marking an empty slot of the suffix array.
pub open spec fn empty_slot() -> usize {
    usize::MAX
}

/// One step of `place_lms`: the position `lms[k]` goes to the current end of
/// its bucket, which then moves one slot to the left unless it is already 0.
pub open spec fn place_step(t: Seq<int>, lms: Seq<usize>, sa: Seq<usize>, tails: Seq<usize>, k: int) -> (
    Seq<usize>,
    Seq<usize>,
) {
    let p = lms[k];
    let c = t[p as int];
    let b = tails[c];
    let tails2 = if b > 0 {
        tails.update(c, (b - 1) as usize)
    } else {
        tails
    };
    (sa.update(b as int, p), tails2)
}

/// The indices read by step `k` of `place_lms` are in bounds.
pub open spec fn place_step_ok(t: Seq<int>, lms: Seq<usize>, sa: Seq<usize>, tails: Seq<usize>, k: int) -> bool {
    &&& lms[k] < t.len()
    &&& 0 <= t[lms[k] as int] < tails.len()
    &&& tails[t[lms[k] as int]] < sa.len()
}

/// The state after the steps `k - 1` down to 0 of `place_lms`.
pub open spec fn place_run(t: Seq<int>, lms: Seq<usize>, sa: Seq<usize>, tails: Seq<usize>, k: int) -> (
    Seq<usize>,
    Seq<usize>,
)
    decreases k,
{
    if k <= 0 {
        (sa, tails)
    } else {
        let st = place_step(t, lms, sa, tails, k - 1);
        place_run(t, lms, st.0, st.1, k - 1)
    }
}

/// Every step `k - 1` down to 0 of `place_lms` stays in bounds.
pub open spec fn place_safe(t: Seq<int>, lms: Seq<usize>, sa: Seq<usize>, tails: Seq<usize>, k: int) -> bool
    decreases k,
{
    if k <= 0 {
        true
    } else {
        let st = place_step(t, lms, sa, tails, k - 1);
        place_step_ok(t, lms, sa, tails, k - 1) && place_safe(t, lms, st.0, st.1, k - 1)
    }
}

/// An array of `n` empty slots.
pub open spec fn empty_array(n: int) -> Seq<usize> {
    Seq::new(n as nat, |i: int| empty_slot())
}

/// One step of `induce_l`, at slot `i`: if the slot holds a position whose
/// predecessor is of type L, the predecessor goes to the current head of its
/// bucket, which then moves one slot to the right.
pub open spec fn l_step(t: Seq<int>, ty: Seq<u8>, sa: Seq<usize>, heads: Seq<usize>, i: int) -> (
    Seq<usize>,
    Seq<usize>,
) {
    let x = sa[i];
    if x == empty_slot() || x == 0 || ty[x - 1] != L {
        (sa, heads)
    } else {
        let c = t[x - 1];
        let b = heads[c];
        (sa.update(b as int, (x - 1) as usize), heads.update(c, (b + 1) as usize))
    }
}

/// The indices read by step `i` of `induce_l` are in bounds.
pub open spec fn l_step_ok(t: Seq<int>, ty: Seq<u8>, sa: Seq<usize>, heads: Seq<usize>, i: int) -> bool {
    let x = sa[i];
    &&& 0 <= i < sa.len()
    &&& (x == empty_slot() || x == 0 || {
        &&& x - 1 < ty.len()
        &&& (ty[x - 1] != L || {
            &&& x - 1 < t.len()
            &&& 0 <= t[x - 1] < heads.len()
            &&& heads[t[x - 1]] < sa.len()
            &&& heads[t[x - 1]] < usize::MAX
        })
    })
}

/// The state after the steps `i` up to `t.len() - 1` of `induce_l`.
pub open spec fn l_run(t: Seq<int>, ty: Seq<u8>, sa: Seq<usize>, heads: Seq<usize>, i: int) -> (
    Seq<usize>,
    Seq<usize>,
)
    decreases t.len() - i,
{
    if i >= t.len() || i < 0 {
        (sa, heads)
    } else {
        let st = l_step(t, ty, sa, heads, i);
        l_run(t, ty, st.0, st.1, i + 1)
    }
}

/// Every step `i` up to `t.len() - 1` of `induce_l` stays in bounds.
pub open spec fn l_safe(t: Seq<int>, ty: Seq<u8>, sa: Seq<usize>, heads: Seq<usize>, i: int) -> bool
    decreases t.len() - i,
{
    if i >= t.len() || i < 0 {
        true
    } else {
        let st = l_step(t, ty, sa, heads, i);
        l_step_ok(t, ty, sa, heads, i) && l_safe(t, ty, st.0, st.1, i + 1)
    }
}

/// One step of `induce_s`, at slot `i`: if the slot holds a position whose
/// predecessor is of type S, the predecessor goes to the current end of its
/// bucket, which then moves one slot to the left unless it is already 0.
pub open spec fn s_step(t: Seq<int>, ty: Seq<u8>, sa: Seq<usize>, tails: Seq<usize>, i: int) -> (
    Seq<usize>,
    Seq<usize>,
) {
    let x = sa[i];
    if x == empty_slot() || x == 0 || ty[x - 1] != S {
        (sa, tails)
    } else {
        let c = t[x - 1];
        let b = tails[c];
        let tails2 = if b > 0 {
            tails.update(c, (b - 1) as usize)
        } else {
            tails
        };
        (sa.update(b as int, (x - 1) as usize), tails2)
    }
}

/// The indices read by step `i` of `induce_s` are in bounds.
pub open spec fn s_step_ok(t: Seq<int>, ty: Seq<u8>, sa: Seq<usize>, tails: Seq<usize>, i: int) -> bool {
    let x = sa[i];
    &&& 0 <= i < sa.len()
    &&& (x == empty_slot() || x == 0 || {
        &&& x - 1 < ty.len()
        &&& (ty[x - 1] != S || {
            &&& x - 1 < t.len()
            &&& 0 <= t[x - 1] < tails.len()
            &&& tails[t[x - 1]] < sa.len()
        })
    })
}

/// The state after the steps `i - 1` down to 0 of `induce_s`.
pub open spec fn s_run(t: Seq<int>, ty: Seq<u8>, sa: Seq<usize>, tails: Seq<usize>, i: int) -> (
    Seq<usize>,
    Seq<usize>,
)
    decreases i,
{
    if i <= 0 {
        (sa, tails)
    } else {
        let st = s_step(t, ty, sa, tails, i - 1);
        s_run(t, ty, st.0, st.1, i - 1)
    }
}

/// Every step `i - 1` down to 0 of `induce_s` stays in bounds.
pub open spec fn s_safe(t: Seq<int>, ty: Seq<u8>, sa: Seq<usize>, tails: Seq<usize>, i: int) -> bool
    decreases i,
{
    if i <= 0 {
        true
    } else {
        let st = s_step(t, ty, sa, tails, i - 1);
        s_step_ok(t, ty, sa, tails, i - 1) && s_safe(t, ty, st.0, st.1, i - 1)
    }
}

/// Places the leftmost-S positions `lms` at the ends of their buckets, the
/// last one first, in a fresh array of empty slots as long as the text.
/// `tails` holds the current end of each bucket and is moved as slots fill.
pub fn place_lms<T: Symbol>(lms: &[usize], tails: &mut [usize], bytes: &[T]) -> (sa: Vec<usize>)
    requires
        place_safe(
            sym_seq(bytes@),
            lms@,
            empty_array(bytes@.len() as int),
            old(tails)@,
            lms@.len() as int,
        ),
    ensures
        (sa@, final(tails)@) == place_run(
            sym_seq(bytes@),
            lms@,
            empty_array(bytes@.len() as int),
            old(tails)@,
            lms@.len() as int,
        ),
{
    let ghost t = sym_seq(bytes@);
    let mut sa: Vec<usize> = vec![usize::MAX; bytes.len()];
    assert(sa@ =~= empty_array(bytes@.len() as int));
    let mut k: usize = lms.len();
    while k > 0
        invariant
            t == sym_seq(bytes@),
            k <= lms@.len(),
            sa@.len() == bytes@.len(),
            place_safe(t, lms@, sa@, tails@, k as int),
            place_run(t, lms@, sa@, tails@, k as int) == place_run(
                t,
                lms@,
                empty_array(bytes@.len() as int),
                old(tails)@,
                lms@.len() as int,
            ),
        decreases k,
    {
        k = k - 1;
        let p = lms[k];
        let ch = bytes[p].as_index();
        let bucket_end = tails[ch];
        sa.set(bucket_end, p);
        if tails[ch] > 0 {
            tails[ch] = tails[ch] - 1;
        }
    }
    sa
}

/// Scans the array from left to right; every filled slot whose position has an
/// L-type predecessor sends that predecessor to the head of its bucket.
/// `heads` holds the current head of each bucket and moves as slots fill.
pub fn induce_l<T: Symbol>(bytes: &[T], sa: &mut [usize], type_map: &[u8], heads: &mut [usize])
    requires
        l_safe(sym_seq(bytes@), type_map@, old(sa)@, old(heads)@, 0),
    ensures
        (final(sa)@, final(heads)@) == l_run(sym_seq(bytes@), type_map@, old(sa)@, old(heads)@, 0),
{
    let ghost t = sym_seq(bytes@);
    let n = bytes.len();
    let mut i: usize = 0;
    while i < n
        invariant
            t == sym_seq(bytes@),
            n == t.len(),
            0 <= i <= n,
            l_safe(t, type_map@, sa@, heads@, i as int),
            l_run(t, type_map@, sa@, heads@, i as int) == l_run(t, type_map@, old(sa)@, old(heads)@, 0),
        decreases n - i,
    {
        if sa[i] == usize::MAX {
            i = i + 1;
            continue;
        }
        let index = sa[i];
        if index > 0 && type_map[index - 1] == L {
            let ch = bytes[index - 1].as_index();
            let bucket_start = heads[ch];
            sa[bucket_start] = index - 1;
            heads[ch] = heads[ch] + 1;
        }
        i = i + 1;
    }
}

/// Scans the array from right to left; every filled slot whose position has an
/// S-type predecessor sends that predecessor to the end of its bucket.
/// `tails` holds the current end of each bucket and moves as slots fill.
pub fn induce_s<T: Symbol>(bytes: &[T], sa: &mut [usize], type_map: &[u8], tails: &mut [usize])
    requires
        s_safe(sym_seq(bytes@), type_map@, old(sa)@, old(tails)@, bytes@.len() as int),
    ensures
        (final(sa)@, final(tails)@) == s_run(
            sym_seq(bytes@),
            type_map@,
            old(sa)@,
            old(tails)@,
            bytes@.len() as int,
        ),
{
    let ghost t = sym_seq(bytes@);
    let n = bytes.len();
    let mut i: usize = n;
    while i > 0
        invariant
            t == sym_seq(bytes@),
            n == t.len(),
            0 <= i <= n,
            s_safe(t, type_map@, sa@, tails@, i as int),
            s_run(t, type_map@, sa@, tails@, i as int) == s_run(t, type_map@, old(sa)@, old(tails)@, n as int),
        decreases i,
    {
        i = i - 1;
        if sa[i] == usize::MAX {
            continue;
        }
        let index = sa[i];
        if index > 0 && type_map[index - 1] == S {
            let ch = bytes[index - 1].as_index();
            let bucket_end = tails[ch];
            sa[bucket_end] = index - 1;
            if tails[ch] > 0 {
                tails[ch] = tails[ch] - 1;
            }
        }
    }
}

} // verus!
