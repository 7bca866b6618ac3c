//! Naming the LMS substrings: equal substrings get equal names, and names grow
//! along the order in which the substrings were sorted.
use vstd::prelude::*;
use crate::symbol::{Symbol, sym_seq};
use crate::types::{is_lms_at, is_lms};

verus! {

/// Walking forward from `a` and `b` in step, the two walks see the same
/// symbols and types until both reach a leftmost S position at the same time
/// (true), or until either runs past the end of the text (true); they differ,
/// or one reaches a leftmost S position before the other (false).
pub open spec fn lms_tail_equal(t: Seq<int>, ty: Seq<u8>, a: int, b: int) -> bool
    decreases t.len() - a,
{
    if a < 0 || b < 0 || a >= t.len() || b >= ty.len() {
        true
    } else if !is_lms_at(ty, a) && !is_lms_at(ty, b) {
        if t[a] != t[b] || ty[a] != ty[b] {
            false
        } else {
            lms_tail_equal(t, ty, a + 1, b + 1)
        }
    } else {
        is_lms_at(ty, a) && is_lms_at(ty, b)
    }
}

/// The LMS substrings starting at `p` and `q` are equal: same first symbol,
/// and the same symbols and types up to the next leftmost S positions, which
/// are at the same distance.
pub open spec fn lms_equal(t: Seq<int>, ty: Seq<u8>, p: int, q: int) -> bool {
    t[p] == t[q] && lms_tail_equal(t, ty, p + 1, q + 1)
}

/// The comparison walk of `is_lms_equal` from `a` and `b` reads only inside
/// the text and the type map.
pub open spec fn tail_walk_ok(t: Seq<int>, ty: Seq<u8>, a: int, b: int) -> bool
    decreases t.len() - a,
{
    if a < 0 || b < 0 || a >= t.len() || b >= ty.len() {
        true
    } else if a >= ty.len() {
        false
    } else if is_lms_at(ty, a) || is_lms_at(ty, b) {
        true
    } else if b >= t.len() {
        false
    } else if t[a] != t[b] || ty[a] != ty[b] {
        true
    } else {
        tail_walk_ok(t, ty, a + 1, b + 1)
    }
}

/// `is_lms_equal` on `p` and `q` reads only inside the text and the type map.
pub open spec fn lms_equal_ok(t: Seq<int>, ty: Seq<u8>, p: int, q: int) -> bool {
    &&& 0 <= p < t.len()
    &&& 0 <= q < t.len()
    &&& t[p] == t[q] ==> tail_walk_ok(t, ty, p + 1, q + 1)
}

/// A type map as long as the text never sends the walk outside.
pub proof fn lemma_tail_walk_ok(t: Seq<int>, ty: Seq<u8>, a: int, b: int)
    requires
        ty.len() == t.len(),
    ensures
        tail_walk_ok(t, ty, a, b),
    decreases t.len() - a,
{
    if 0 <= a < t.len() && 0 <= b < ty.len() {
        lemma_tail_walk_ok(t, ty, a + 1, b + 1);
    }
}

/// Whether the LMS substrings starting at `lms_one` and `lms_two` are equal.
pub fn is_lms_equal<T: Symbol>(bytes: &[T], type_map: &[u8], lms_one: usize, lms_two: usize) -> (r: bool)
    requires
        lms_equal_ok(sym_seq(bytes@), type_map@, lms_one as int, lms_two as int),
    ensures
        r == lms_equal(sym_seq(bytes@), type_map@, lms_one as int, lms_two as int),
{
    let ghost t = sym_seq(bytes@);
    let ghost ty = type_map@;
    let ghost start_one = lms_one as int;
    let ghost start_two = lms_two as int;
    let n = bytes.len();
    let mut one = lms_one;
    let mut two = lms_two;
    assert(t[start_one] == bytes@[start_one].spec_index() && t[start_two] == bytes@[start_two].spec_index());
    proof {
        T::lemma_order_is_index(bytes@[start_one], bytes@[start_two]);
    }
    if bytes[one] == bytes[two] {
        one = one + 1;
        two = two + 1;
    } else {
        return false;
    }
    while one < bytes.len() && two < type_map.len()
        invariant
            t == sym_seq(bytes@),
            ty == type_map@,
            n == t.len(),
            tail_walk_ok(t, ty, one as int, two as int),
            start_one == lms_one && start_two == lms_two,
            start_one < n && start_two < n,
            t[start_one] == t[start_two],
            one <= t.len(),
            two <= t.len(),
            lms_tail_equal(t, ty, one as int, two as int) == lms_tail_equal(
                t,
                ty,
                start_one + 1,
                start_two + 1,
            ),
        decreases t.len() - one,
    {
        let one_is_lms = is_lms(type_map, one);
        let two_is_lms = is_lms(type_map, two);
        if !one_is_lms && !two_is_lms {
            assert(t[one as int] == bytes@[one as int].spec_index());
            assert(t[two as int] == bytes@[two as int].spec_index());
            proof {
                T::lemma_order_is_index(bytes@[one as int], bytes@[two as int]);
            }
            if bytes[one] != bytes[two] || type_map[one] != type_map[two] {
                assert(!is_lms_at(ty, one as int) && !is_lms_at(ty, two as int));
                assert(t[one as int] != t[two as int] || ty[one as int] != ty[two as int]);
                return false;
            }
            one = one + 1;
            two = two + 1;
        } else if one_is_lms && two_is_lms {
            return true;
        } else {
            return false;
        }
    }
    true
}

/// The state of the naming scan: the name given to each position so far
/// (`usize::MAX` where none), the last leftmost S position met, and the
/// current name.
pub struct NameState {
    pub names: Seq<usize>,
    pub last: Option<usize>,
    pub name: int,
}

/// Meeting slot value `x` in the naming scan: a leftmost S position gets the
/// current name, increased first if its substring differs from the last one.
pub open spec fn name_step(t: Seq<int>, ty: Seq<u8>, st: NameState, x: usize) -> NameState {
    if x != usize::MAX && is_lms_at(ty, x as int) {
        let name = match st.last {
            Some(l) => if lms_equal(t, ty, x as int, l as int) {
                st.name
            } else {
                st.name + 1
            },
            None => st.name,
        };
        NameState { names: st.names.update(x as int, name as usize), last: Some(x), name }
    } else {
        st
    }
}

/// The naming scan over the first `k` slots of `sa`.
pub open spec fn name_run(t: Seq<int>, ty: Seq<u8>, sa: Seq<usize>, k: int) -> NameState
    decreases k,
{
    if k <= 0 {
        NameState { names: Seq::new(t.len(), |i: int| usize::MAX), last: None, name: 1 }
    } else {
        name_step(t, ty, name_run(t, ty, sa, k - 1), sa[k - 1])
    }
}

/// Meeting slot value `x` in the naming scan reads only inside the text and
/// the type map.
pub open spec fn name_step_ok(t: Seq<int>, ty: Seq<u8>, st: NameState, x: usize) -> bool {
    &&& (x == usize::MAX || x == 0 || x < ty.len())
    &&& (x != usize::MAX && is_lms_at(ty, x as int)) ==> {
        &&& x < t.len()
        &&& (st.last matches Some(l) ==> lms_equal_ok(t, ty, x as int, l as int))
    }
}

/// The named positions below `k` in increasing order, with their names.
pub open spec fn compact(names: Seq<usize>, k: int) -> (Seq<usize>, Seq<usize>)
    decreases k,
{
    if k <= 0 {
        (Seq::empty(), Seq::empty())
    } else {
        let r = compact(names, k - 1);
        if names[k - 1] != usize::MAX {
            (r.0.push(names[k - 1]), r.1.push((k - 1) as usize))
        } else {
            r
        }
    }
}

/// Names the LMS substrings in the order in which their positions appear in
/// `guessed_sa`. Returns the names in text order, the positions they belong
/// to, and one more than the largest name.
pub fn summarize<T: Symbol>(guessed_sa: &[usize], bytes: &[T], type_map: &[u8]) -> (r: (Vec<usize>, Vec<usize>, usize))
    requires
        guessed_sa@.len() < usize::MAX,
        forall|k: int|
            0 <= k < guessed_sa@.len() ==> name_step_ok(
                sym_seq(bytes@),
                type_map@,
                name_run(sym_seq(bytes@), type_map@, guessed_sa@, k),
                #[trigger] guessed_sa@[k],
            ),
    ensures
        ({
            let st = name_run(sym_seq(bytes@), type_map@, guessed_sa@, guessed_sa@.len() as int);
            &&& (r.0@, r.1@) == compact(st.names, bytes@.len() as int)
            &&& r.2 == st.name + 1
        }),
{
    let ghost t = sym_seq(bytes@);
    let ghost ty = type_map@;
    let n = bytes.len();
    let mut intermidiate_summary: Vec<usize> = vec![usize::MAX; n];
    let mut summary: Vec<usize> = Vec::new();
    let mut suffix_offsets: Vec<usize> = Vec::new();
    let mut last_lms: Option<usize> = None;
    let mut current_name: usize = 1;
    let mut k: usize = 0;
    assert(intermidiate_summary@ =~= name_run(t, ty, guessed_sa@, 0).names);
    while k < guessed_sa.len()
        invariant
            t == sym_seq(bytes@),
            ty == type_map@,
            n == t.len(),
            guessed_sa@.len() < usize::MAX,
            0 <= k <= guessed_sa@.len(),
            forall|j: int|
                0 <= j < guessed_sa@.len() ==> name_step_ok(t, ty, name_run(t, ty, guessed_sa@, j), #[trigger] guessed_sa@[j]),
            intermidiate_summary@ == name_run(t, ty, guessed_sa@, k as int).names,
            intermidiate_summary@.len() == n,
            last_lms == name_run(t, ty, guessed_sa@, k as int).last,
            current_name == name_run(t, ty, guessed_sa@, k as int).name,
            1 <= current_name,
            current_name <= k || current_name == 1,
            k == 0 ==> last_lms is None,
            last_lms matches Some(l) ==> l < n,
        decreases guessed_sa@.len() - k,
    {
        let i = guessed_sa[k];
        if is_lms(type_map, i) {
            match last_lms {
                Some(last) => {
                    if !is_lms_equal(bytes, type_map, i, last) {
                        current_name = current_name + 1;
                    }
                },
                None => {},
            }
            intermidiate_summary.set(i, current_name);
            last_lms = Some(i);
        }
        k = k + 1;
    }
    let ghost names = intermidiate_summary@;
    let mut index: usize = 0;
    assert(compact(names, 0) == (Seq::<usize>::empty(), Seq::<usize>::empty()));
    while index < n
        invariant
            names == intermidiate_summary@,
            current_name < usize::MAX,
            names.len() == n,
            0 <= index <= n,
            (summary@, suffix_offsets@) == compact(names, index as int),
        decreases n - index,
    {
        let name = intermidiate_summary[index];
        if name != usize::MAX {
            summary.push(name);
            suffix_offsets.push(index);
        }
        index = index + 1;
    }
    (summary, suffix_offsets, current_name + 1)
}

} // verus!
