//! The list of leftmost S positions in increasing order.
use vstd::prelude::*;
use crate::theory::count::count;
use crate::types::{S, types_of, is_lms_at, lms_upto, lms_of};
use crate::theory::order::{valid_text, lemma_type_facts, lemma_types_of_binary};
use crate::theory::seeds::{in_list, seed_list};
use crate::theory::lms::next_lms;

verus! {

/// The predicate "`x` is a leftmost S position".
pub open spec fn lms_pred(ty: Seq<u8>) -> spec_fn(int) -> bool {
    |x: int| is_lms_at(ty, x)
}

/// The list below `k` holds exactly the leftmost S positions below `k`, in
/// increasing order.
pub proof fn lemma_lms_upto(ty: Seq<u8>, k: int)
    requires
        0 <= k <= ty.len(),
        ty.len() <= usize::MAX,
    ensures
        forall|a: int| 0 <= a < lms_upto(ty, k).len() ==> #[trigger] lms_upto(ty, k)[a] < k,
        forall|a: int| 0 <= a < lms_upto(ty, k).len() ==> is_lms_at(ty, #[trigger] lms_upto(ty, k)[a] as int),
        forall|a: int, b: int|
            0 <= a < b < lms_upto(ty, k).len() ==> #[trigger] lms_upto(ty, k)[a] < #[trigger] lms_upto(ty, k)[b],
        forall|x: int| 0 <= x < k && #[trigger] is_lms_at(ty, x) ==> in_list(lms_upto(ty, k), x),
        lms_upto(ty, k).len() == count(k, lms_pred(ty)),
        lms_upto(ty, k).len() * 2 <= k,
    decreases k,
{
    if k > 0 {
        lemma_lms_upto(ty, k - 1);
        let prev = lms_upto(ty, k - 1);
        if is_lms_at(ty, k - 1) {
            assert forall|x: int| 0 <= x < k && #[trigger] is_lms_at(ty, x) implies in_list(lms_upto(ty, k), x) by {
                if x < k - 1 {
                    let a = choose|a: int| 0 <= a < prev.len() && prev[a] == x;
                    assert(lms_upto(ty, k)[a] == x);
                } else {
                    assert(lms_upto(ty, k)[prev.len() as int] == x);
                }
            }
            if k >= 2 {
                lemma_lms_upto(ty, k - 2);
                assert(!is_lms_at(ty, k - 2));
                assert(lms_upto(ty, k - 1) == lms_upto(ty, k - 2));
            }
        } else {
            assert forall|x: int| 0 <= x < k && #[trigger] is_lms_at(ty, x) implies in_list(lms_upto(ty, k), x) by {
                let a = choose|a: int| 0 <= a < prev.len() && prev[a] == x;
                assert(lms_upto(ty, k)[a] == x);
            }
        }
    }
}

/// The leftmost S positions of a valid text form a seed list that ends with
/// the sentinel, and each entry's successor in the list is the next leftmost
/// S position after it.
pub proof fn lemma_lms_of(t: Seq<int>)
    requires
        valid_text(t),
        t.len() >= 2,
        t.len() <= usize::MAX,
    ensures
        seed_list(t, lms_of(types_of(t))),
        lms_of(types_of(t)).len() >= 1,
        lms_of(types_of(t))[lms_of(types_of(t)).len() - 1] == t.len() - 1,
        forall|a: int|
            0 <= a < lms_of(types_of(t)).len() - 1 ==> lms_of(types_of(t))[a + 1] == next_lms(
                types_of(t),
                #[trigger] lms_of(types_of(t))[a] + 1,
            ),
        forall|a: int, b: int|
            0 <= a < b < lms_of(types_of(t)).len() ==> #[trigger] lms_of(types_of(t))[a]
                < #[trigger] lms_of(types_of(t))[b],
        lms_of(types_of(t)).len() * 2 <= t.len(),
        lms_of(types_of(t)).len() == count(t.len() as int, lms_pred(types_of(t))),
{
    let ty = types_of(t);
    let n = t.len() as int;
    let off = lms_of(ty);
    lemma_types_of_binary(t);
    lemma_lms_upto(ty, n);
    lemma_type_facts(t, n - 2);
    assert(is_lms_at(ty, n - 1));
    assert(in_list(off, n - 1));
    let z = choose|a: int| 0 <= a < off.len() && off[a] == n - 1;
    if z < off.len() - 1 {
        assert(off[z] < off[off.len() - 1]);
    }
    assert(off.no_duplicates()) by {
        assert forall|a: int, b: int| 0 <= a < off.len() && 0 <= b < off.len() && a != b implies off[a]
            != off[b] by {
            if a < b {
                assert(off[a] < off[b]);
            } else {
                assert(off[b] < off[a]);
            }
        }
    }
    assert forall|a: int| 0 <= a < off.len() - 1 implies off[a + 1] == next_lms(ty, #[trigger] off[a] + 1) by {
        lemma_next_lms(ty, off[a] + 1, off[a + 1] as int);
        assert forall|y: int| off[a] + 1 <= y < off[a + 1] implies !is_lms_at(ty, y) by {
            if is_lms_at(ty, y) {
                let b = choose|b: int| 0 <= b < off.len() && off[b] == y;
                if b <= a {
                    if b < a {
                        assert(off[b] < off[a]);
                    }
                } else if b >= a + 1 {
                    if b > a + 1 {
                        assert(off[a + 1] < off[b]);
                    }
                }
            }
        }
    }
}

/// The first leftmost S position at or after `x` is `y`, when `y` is one and
/// none lies between them.
pub proof fn lemma_next_lms(ty: Seq<u8>, x: int, y: int)
    requires
        0 <= x <= y < ty.len(),
        is_lms_at(ty, y),
        forall|z: int| x <= z < y ==> !is_lms_at(ty, z),
    ensures
        next_lms(ty, x) == y,
    decreases y - x,
{
    if x < y {
        lemma_next_lms(ty, x + 1, y);
    }
}

} // verus!
