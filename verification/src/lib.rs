//! A "tangle" engine for literate-programming documents.
//!
//! Named code fragments ("macros") are extracted from the fenced code blocks
//! of a document, the reference graph between them is built and checked for
//! cycles, and a distinguished root fragment is expanded into one flat output
//! text by recursive, indentation-aware substitution.

pub mod text;
pub mod fragment;
pub mod table;
pub mod cycle;
pub mod indent;
pub mod expand;
pub mod trusted;
pub mod driver;

use vstd::prelude::*;

verus! {

} // verus!
