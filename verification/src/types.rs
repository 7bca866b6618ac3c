//! Suffix types (S and L) and the leftmost-S positions of a text.
use vstd::prelude::*;
use crate::symbol::{Symbol, sym_seq};

verus! {

/// Type of a suffix that is smaller than the suffix after it.
pub const S: u8 = 0;

/// Type of a suffix that is larger than the suffix after it.
pub const L: u8 = 1;

/// The type of position `i` of text `t`: the last position is S; a position
/// whose symbol is smaller than the next one is S, larger is L, and equal
/// takes the type of the next position.
pub open spec fn type_of(t: Seq<int>, i: int) -> u8
    decreases t.len() - i,
{
    if i < 0 || i + 1 >= t.len() {
        S
    } else if t[i] < t[i + 1] {
        S
    } else if t[i] == t[i + 1] {
        type_of(t, i + 1)
    } else {
        L
    }
}

/// The types of all positions of `t`.
pub open spec fn types_of(t: Seq<int>) -> Seq<u8> {
    Seq::new(t.len(), |i: int| type_of(t, i))
}

/// Position `i` is a leftmost S position: an S position right after an L one.
pub open spec fn is_lms_at(ty: Seq<u8>, i: int) -> bool {
    1 <= i < ty.len() && ty[i] == S && ty[i - 1] == L
}

/// The leftmost S positions below `k`, in increasing order.
pub open spec fn lms_upto(ty: Seq<u8>, k: int) -> Seq<usize>
    decreases k,
{
    if k <= 0 {
        Seq::empty()
    } else if is_lms_at(ty, k - 1) {
        lms_upto(ty, k - 1).push((k - 1) as usize)
    } else {
        lms_upto(ty, k - 1)
    }
}

/// All leftmost S positions of a type map, in increasing order.
pub open spec fn lms_of(ty: Seq<u8>) -> Seq<usize> {
    lms_upto(ty, ty.len() as int)
}

/// Whether position `i` of the type map is a leftmost S position. Position 0
/// and `usize::MAX` never are.
pub fn is_lms(type_map: &[u8], i: usize) -> (r: bool)
    requires
        i < 1 || i == usize::MAX || i < type_map@.len(),
    ensures
        r == (i != usize::MAX && is_lms_at(type_map@, i as int)),
{
    if i < 1 || i == usize::MAX {
        return false;
    }
    if type_map[i] == S && type_map[i - 1] == L {
        true
    } else {
        false
    }
}

/// The type (S or L) of every position of the text.
pub fn find_types<T: Symbol>(bytes: &[T]) -> (type_map: Vec<u8>)
    ensures
        type_map@ == types_of(sym_seq(bytes@)),
{
    let ghost t = sym_seq(bytes@);
    if bytes.len() == 0 {
        assert(types_of(t) =~= Seq::<u8>::empty());
        return Vec::new();
    }
    let n = bytes.len();
    let mut type_map: Vec<u8> = vec![0; n];
    let mut i: usize = n - 1;
    while i > 0
        invariant
            n == bytes@.len(),
            t == sym_seq(bytes@),
            0 <= i < n,
            type_map@.len() == n,
            type_map@[n - 1] == S,
            forall|k: int| i <= k < n - 1 ==> type_map@[k] == #[trigger] type_of(t, k),
        decreases i,
    {
        i = i - 1;
        assert(type_of(t, n - 1) == S);
        assert(t.len() == n);
        proof {
            T::lemma_order_is_index(bytes@[i as int], bytes@[i + 1]);
        }
        assert(t[i as int] == bytes@[i as int].spec_index());
        assert(t[i + 1] == bytes@[i + 1].spec_index());
        assert(type_map@[i + 1] == type_of(t, i + 1));
        if bytes[i] < bytes[i + 1] {
            type_map.set(i, S);
        } else if bytes[i] == bytes[i + 1] {
            let next = type_map[i + 1];
            type_map.set(i, next);
        } else {
            type_map.set(i, L);
        }
        assert(type_map@[i as int] == type_of(t, i as int));
    }
    type_map.set(n - 1, S);
    assert(type_map@ =~= types_of(t));
    type_map
}

/// The leftmost S positions of a type map, in increasing order.
pub fn find_lms(type_map: &[u8]) -> (lms_positions: Vec<usize>)
    ensures
        lms_positions@ == lms_of(type_map@),
{
    let mut lms_positions: Vec<usize> = Vec::new();
    let mut i: usize = 1;
    assert(lms_upto(type_map@, 0) == Seq::<usize>::empty());
    while i < type_map.len()
        invariant
            1 <= i,
            i <= type_map@.len() || i == 1,
            lms_positions@ == lms_upto(type_map@, i as int),
        decreases type_map@.len() - i,
    {
        if is_lms(type_map, i) {
            lms_positions.push(i);
        }
        i = i + 1;
    }
    assert(lms_upto(type_map@, 1) == lms_upto(type_map@, 0));
    lms_positions
}

} // verus!
