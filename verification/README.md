# sa_linear

Suffix arrays by induced sorting (SA-IS), written in Verus. The proofs
cover correctness, not running time: that SA-IS runs in linear time is a
property of the algorithm that nothing here states or checks.

`build_sa_is` returns the suffix array of a text of symbols (bytes or
`usize` indices): every position once, in increasing order of the suffixes
that start there. This is proved, not only tested. `longest_repeat` reads the
length of the longest repeated substring off the suffix array.

Layout:

- `src/symbol.rs`, `types.rs`, `buckets.rs`, `induce.rs`, `naming.rs`: the
  steps of the algorithm (types, leftmost S positions, buckets, the three
  induced-sorting passes, naming of LMS substrings), each with a contract.
- `src/sais.rs`: the whole construction and its proof.
- `src/lrs.rs`: the longest repeated substring.
- `src/aligned.rs`: the table of positions, types, symbols and suffix array
  slots as text.
- `src/theory/`: the orders on suffixes and the lemmas behind the proofs;
  `theory/shift.rs` carries them from texts ending in 0 to texts ending in
  any unique smallest symbol.
- `src/laws.rs`: properties of the library stated as proof functions.
- `app/main.rs`: reads a length and a line, prints the longest repeat.
