//! A structural index builder for JSON records: character bitmaps, the removal of
//! characters that stand inside strings, and leveled colon and comma bitmaps.
//!
//! `IndexBuilder::build` takes the builder by `&mut self`: it rewrites the builder's bitmaps
//! in place and the index it returns borrows them.
//!
//! The record parser (`Parser`, `Parser::new` and `Parser::parse`) is not part of this crate:
//! it reads values with a value module and with query methods of the structural index
//! (comma and colon positions, field and value bounds, substrings) whose source is not
//! available here, and its logic cannot be separated from them.
use vstd::prelude::*;

pub mod bit;
pub mod errors;
mod parity;
pub mod index_builder;

verus! {

} // verus!
