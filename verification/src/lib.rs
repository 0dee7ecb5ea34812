//! A recursive directory-listing library: a depth-first walk over a
//! directory tree with an optional glob filter on entry base names.
//!
//! `pattern` compiles and applies glob patterns (through the `glob` crate);
//! `walker` is the incremental traversal state machine that a caller drives
//! against a live filesystem; `tree` is an in-memory tree model on which the
//! traversal is implemented and its laws are proved.

pub mod laws;
pub mod pattern;
pub mod tree;
pub mod walker;
