//! Symbols of a text: anything that maps to a small index.
use vstd::prelude::*;
use vstd::std_specs::cmp::{PartialEqSpec, PartialOrdSpec};
use std::cmp::Ordering;

verus! {

/// `a == b` as the `PartialEq` of the type computes it.
pub open spec fn sym_eq<T: PartialEq>(a: T, b: T) -> bool {
    a.eq_spec(&b)
}

/// `a < b` as the `PartialOrd` of the type computes it.
pub open spec fn sym_lt<T: PartialOrd>(a: T, b: T) -> bool {
    a.partial_cmp_spec(&b) == Some(Ordering::Less)
}

/// The type's `==` and `<` compute what their specifications say.
pub open spec fn std_order_obeyed<T: PartialOrd>() -> bool {
    T::obeys_eq_spec() && T::obeys_partial_cmp_spec()
}

/// A symbol of the alphabet. The order of symbols (`==` and `<`) is the
/// order of their indices, and the symbol with index 0 is reserved as the
/// sentinel that ends every text.
pub trait Symbol: Ord + Copy + Sized {
    /// The index of the symbol in the alphabet.
    spec fn spec_index(&self) -> nat;

    /// Symbols compare as their indices do.
    proof fn lemma_order_is_index(a: Self, b: Self)
        ensures
            std_order_obeyed::<Self>(),
            sym_eq(a, b) <==> a.spec_index() == b.spec_index(),
            sym_lt(a, b) <==> a.spec_index() < b.spec_index(),
    ;

    fn as_index(&self) -> (r: usize)
        ensures
            r as nat == self.spec_index(),
    ;

    fn display(&self) -> (s: String)
        ensures
            s@ == self.spec_display(),
    ;

    /// What `display` shows for the symbol.
    spec fn spec_display(&self) -> Seq<char>;

    fn sentinel() -> (s: Self)
        ensures
            s.spec_index() == 0,
    ;
}

/// The text as a sequence of symbol indices.
pub open spec fn sym_seq<T: Symbol>(s: Seq<T>) -> Seq<int> {
    Seq::new(s.len(), |i: int| s[i].spec_index() as int)
}

/// The decimal digits of `x`, most significant first.
pub open spec fn decimal(x: nat) -> Seq<char>
    decreases x,
{
    if x < 10 {
        seq![((48 + x) as u8) as char]
    } else {
        decimal(x / 10).push(((48 + x % 10) as u8) as char)
    }
}

/// `char::to_string`: the string made of the one character `c`.
#[verifier::external_body]
pub(crate) fn char_to_string(c: char) -> (s: String)
    ensures
        s@ == seq![c],
{
    c.to_string()
}

/// `usize::to_string`: the decimal representation of `x`, without sign or
/// leading zeros.
#[verifier::external_body]
pub(crate) fn usize_to_string(x: usize) -> (s: String)
    ensures
        s@ == decimal(x as nat),
{
    x.to_string()
}

impl Symbol for u8 {
    open spec fn spec_index(&self) -> nat {
        *self as nat
    }

    proof fn lemma_order_is_index(a: Self, b: Self) {
    }

    fn as_index(&self) -> (r: usize) {
        *self as usize
    }

    /// An ASCII byte shows as its character, any other byte as a dot.
    open spec fn spec_display(&self) -> Seq<char> {
        if *self < 128 {
            seq![(*self) as char]
        } else {
            seq!['.']
        }
    }

    fn display(&self) -> (s: String) {
        if *self < 128 {
            char_to_string(*self as char)
        } else {
            char_to_string('.')
        }
    }

    fn sentinel() -> (s: Self) {
        0
    }
}

impl Symbol for usize {
    open spec fn spec_index(&self) -> nat {
        *self as nat
    }

    proof fn lemma_order_is_index(a: Self, b: Self) {
    }

    fn as_index(&self) -> (r: usize) {
        *self
    }

    open spec fn spec_display(&self) -> Seq<char> {
        decimal(*self as nat)
    }

    fn display(&self) -> (s: String) {
        usize_to_string(*self)
    }

    fn sentinel() -> (s: Self) {
        0
    }
}

} // verus!
