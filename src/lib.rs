//! Recognition and rewriting of directive comments in test sources.
//!
//! A directive is a comment line such as `// run-pass` that carries test
//! metadata. Given the set of known directive lines, the library decides for
//! every line of a file whether it is one of them and, if so, turns its
//! leading `//` into `//@`.

pub mod text;
pub mod directive_set;
pub mod classify;
pub mod names;
pub mod walk;
