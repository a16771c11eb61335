//! Recursive-descent parser for parenthesized prefix S-expressions.
//!
//! `grammar` states the grammar as spec functions over character sequences,
//! `parsers` holds the executable rules proved against it, and `laws` proves
//! properties of the grammar as a whole.
pub mod grammar;
pub mod laws;
pub mod parsers;
