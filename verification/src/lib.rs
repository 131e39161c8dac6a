//! A parser and canonicalizer for an indentation-sensitive, recursive
//! key-value configuration notation.
//!
//! Raw text is parsed into an ordered sequence of key/value pairs, the pairs
//! are grouped into a tree keyed by name, and the tree is folded into a
//! canonical recursive map that supports a deterministic, associative merge
//! and a deterministic pretty-printer.

pub mod key_val;
pub mod monoid;
pub mod parser;
pub mod query;
pub mod round_trip;
pub mod string_utils;
pub mod text;
