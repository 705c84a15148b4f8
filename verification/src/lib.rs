//! Restructures a flat HTML fragment into nested sectioning containers that
//! mirror the outline its heading elements (`h1`..`h6`) define.
//!
//! The crate works on its own document model: a tree of [`tree::HtmlNode`]
//! values. The [`layer`] module resolves, for one sibling group, which
//! position each node structurally belongs under; the [`restructure`] module
//! rebuilds the tree accordingly, and [`laws`] proves what the rebuild
//! preserves. Parsing HTML text into the model and serializing the result
//! back belong to the surrounding program, not to this library.

pub mod layer;
pub mod laws;
pub mod restructure;
pub mod tree;
