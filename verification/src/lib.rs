//! Extraction of structured documentation for named function bindings
//! from a functional configuration language's source files.
//!
//! The library works on a lossless syntax tree modeled as a plain arena
//! ([`tree`]): an external parser produces the tree, a thin front end
//! lays it out, and everything from there on is verified.  Comments
//! loosely attached to a binding are resolved under two dialects
//! ([`comment`], [`legacy`]), normalized and decomposed into semantic
//! fields ([`format`], [`collect`]), curried and destructuring
//! parameters are walked for argument documentation, one level of
//! lexical scope is resolved so that re-exported bindings inherit their
//! original documentation, and the resulting entries are rendered as
//! CommonMark ([`commonmark`]).

pub mod collect;
pub mod comment;
pub mod commonmark;
pub mod format;
pub mod frontmatter;
pub mod legacy;
pub mod tree;
