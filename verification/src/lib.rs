//! Suffix array construction by induced sorting (SA-IS).
//!
//! The library builds the suffix array of a text of `Symbol`s with the SA-IS
//! algorithm. Every step of the algorithm is verified against a
//! specification, and the final result is proved to be the suffix array: a
//! permutation of the text's positions in which the suffixes appear in
//! strictly increasing order. What is proved is correctness (and freedom from
//! panics and overflow); the running time is not part of any statement.
pub mod symbol;
pub mod types;
pub mod buckets;
pub mod induce;
pub mod naming;
pub mod theory;
pub mod sais;
pub mod lrs;
pub mod laws;
pub mod aligned;

pub use symbol::Symbol;
pub use types::{S, L, is_lms, find_types, find_lms};
pub use buckets::{get_frequencies, get_heads_tails};
pub use induce::{place_lms, induce_l, induce_s};
pub use naming::{is_lms_equal, summarize};
pub use sais::build_sa_is;
pub use lrs::longest_repeat;
pub use aligned::aligned_rows;
