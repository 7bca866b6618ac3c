//! The aligned table of a text: its positions, their types, its symbols and
//! the slots of a suffix array, one column of width three per entry.
use vstd::prelude::*;
use crate::symbol::{Symbol, decimal, char_to_string, usize_to_string};
use crate::types::{S, L};

verus! {

/// A cell padded with spaces to three characters, then a separating space.
pub open spec fn padded(cell: Seq<char>) -> Seq<char> {
    let pad: nat = if cell.len() < 3 {
        (3 - cell.len()) as nat
    } else {
        0
    };
    cell + Seq::new(pad, |i: int| ' ') + seq![' ']
}

/// The cells `0` to `k - 1` of a row, each padded.
pub open spec fn padded_cells(cells: spec_fn(int) -> Seq<char>, k: int) -> Seq<char>
    decreases k,
{
    if k <= 0 {
        Seq::empty()
    } else {
        padded_cells(cells, k - 1) + padded(cells(k - 1))
    }
}

/// The cells of the index row: the positions in decimal.
pub open spec fn index_cells() -> spec_fn(int) -> Seq<char> {
    |i: int| decimal(i as nat)
}

/// The letter of a type: S, L, or ? for any other value.
pub open spec fn type_letter(ty: u8) -> char {
    if ty == S {
        'S'
    } else if ty == L {
        'L'
    } else {
        '?'
    }
}

/// The cells of the type row.
pub open spec fn type_cells(ty: Seq<u8>) -> spec_fn(int) -> Seq<char> {
    |i: int| seq![type_letter(ty[i])]
}

/// The cells of the symbol row: each symbol as it displays.
pub open spec fn symbol_cells<T: Symbol>(bytes: Seq<T>) -> spec_fn(int) -> Seq<char> {
    |i: int| bytes[i].spec_display()
}

/// The cells of the suffix array row: the position in a slot, or a dot for an
/// empty slot.
pub open spec fn slot_cells(sa: Seq<usize>) -> spec_fn(int) -> Seq<char> {
    |i: int| if sa[i] == usize::MAX { seq!['.'] } else { decimal(sa[i] as nat) }
}

/// A row: its label, its padded cells and a line break.
pub open spec fn row(label: Seq<char>, cells: spec_fn(int) -> Seq<char>, k: int) -> Seq<char> {
    label + padded_cells(cells, k) + seq!['\n']
}

/// The whole table: the index, type, symbol and suffix array rows.
pub open spec fn aligned_text<T: Symbol>(bytes: Seq<T>, ty: Seq<u8>, sa: Seq<usize>) -> Seq<char> {
    row(seq!['I', 'n', 'd', 'e', 'x', ':', ' '], index_cells(), bytes.len() as int) + row(
        seq!['T', 'y', 'p', 'e', ' ', ':', ' '],
        type_cells(ty),
        ty.len() as int,
    ) + row(seq!['C', 'h', 'a', 'r', ' ', ':', ' '], symbol_cells(bytes), bytes.len() as int) + row(
        seq!['r', 'a', 'n', 'k', ' ', ':', ' '],
        slot_cells(sa),
        sa.len() as int,
    )
}

/// Appends a cell padded to three characters and a separating space.
fn push_padded(out: &mut String, cell: String)
    ensures
        final(out)@ == old(out)@ + padded(cell@),
{
    let ghost start = out@;
    let len = cell.as_str().unicode_len();
    out.append(cell.as_str());
    let mut k: usize = len;
    while k < 3
        invariant
            len == cell@.len(),
            len <= k,
            k <= 3 || k == len,
            out@ == start + cell@ + Seq::new((k - len) as nat, |i: int| ' '),
        decreases 3 - k,
    {
        let space = char_to_string(' ');
        let ghost before = out@;
        out.append(space.as_str());
        assert(Seq::new((k + 1 - len) as nat, |i: int| ' ') =~= Seq::new((k - len) as nat, |i: int| ' ').push(
            ' ',
        ));
        assert(out@ =~= start + cell@ + Seq::new((k + 1 - len) as nat, |i: int| ' '));
        k = k + 1;
    }
    let space = char_to_string(' ');
    out.append(space.as_str());
    assert(out@ =~= old(out)@ + padded(cell@));
}

/// The table of a text, its type map and a suffix array, as text: a row of
/// positions, a row of types, a row of symbols and a row of suffix array
/// slots, each cell padded to three characters and followed by a space.
pub fn aligned_rows<T: Symbol>(bytes: &[T], type_map: &[u8], sa: &[usize]) -> (text: String)
    requires
        bytes@.len() == type_map@.len(),
    ensures
        text@ == aligned_text(bytes@, type_map@, sa@),
{
    let mut out = String::new();
    let n = bytes.len();
    proof {
        reveal_strlit("Index: ");
        reveal_strlit("Type : ");
        reveal_strlit("Char : ");
        reveal_strlit("rank : ");
        reveal_strlit("\n");
    }
    out.append("Index: ");
    let ghost s0 = out@;
    let mut i: usize = 0;
    while i < n
        invariant
            n == bytes@.len(),
            0 <= i <= n,
            out@ == s0 + padded_cells(index_cells(), i as int),
        decreases n - i,
    {
        let cell = usize_to_string(i);
        push_padded(&mut out, cell);
        assert(out@ =~= s0 + padded_cells(index_cells(), i + 1));
        i = i + 1;
    }
    out.append("\n");
    let ghost r1 = out@;
    assert(r1 =~= row(seq!['I', 'n', 'd', 'e', 'x', ':', ' '], index_cells(), n as int));
    out.append("Type : ");
    let ghost s1 = out@;
    let mut i: usize = 0;
    while i < type_map.len()
        invariant
            0 <= i <= type_map@.len(),
            out@ == s1 + padded_cells(type_cells(type_map@), i as int),
        decreases type_map@.len() - i,
    {
        let ty = type_map[i];
        let letter = if ty == S {
            'S'
        } else if ty == L {
            'L'
        } else {
            '?'
        };
        let cell = char_to_string(letter);
        push_padded(&mut out, cell);
        assert(out@ =~= s1 + padded_cells(type_cells(type_map@), i + 1));
        i = i + 1;
    }
    out.append("\n");
    let ghost r2 = out@;
    assert(r2 =~= r1 + row(seq!['T', 'y', 'p', 'e', ' ', ':', ' '], type_cells(type_map@), type_map@.len() as int));
    out.append("Char : ");
    let ghost s2 = out@;
    let mut i: usize = 0;
    while i < n
        invariant
            n == bytes@.len(),
            0 <= i <= n,
            out@ == s2 + padded_cells(symbol_cells(bytes@), i as int),
        decreases n - i,
    {
        let cell = bytes[i].display();
        push_padded(&mut out, cell);
        assert(out@ =~= s2 + padded_cells(symbol_cells(bytes@), i + 1));
        i = i + 1;
    }
    out.append("\n");
    let ghost r3 = out@;
    assert(r3 =~= r2 + row(seq!['C', 'h', 'a', 'r', ' ', ':', ' '], symbol_cells(bytes@), n as int));
    out.append("rank : ");
    let ghost s3 = out@;
    let mut i: usize = 0;
    while i < sa.len()
        invariant
            0 <= i <= sa@.len(),
            out@ == s3 + padded_cells(slot_cells(sa@), i as int),
        decreases sa@.len() - i,
    {
        let cell = if sa[i] == usize::MAX {
            char_to_string('.')
        } else {
            usize_to_string(sa[i])
        };
        push_padded(&mut out, cell);
        assert(out@ =~= s3 + padded_cells(slot_cells(sa@), i + 1));
        i = i + 1;
    }
    out.append("\n");
    assert(out@ =~= r3 + row(seq!['r', 'a', 'n', 'k', ' ', ':', ' '], slot_cells(sa@), sa@.len() as int));
    out
}

} // verus!
