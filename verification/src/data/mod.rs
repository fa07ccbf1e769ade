//! The values that the library brings along: symbols, strings, named
//! constructors and lists.
//!
//! - `data`: the values and the text that shows them.
//! - [`parse`]: the notation of values.
//! - [`faithful`]: when the text that shows a value reads back as it.

mod data;
pub mod faithful;
pub mod parse;

pub use data::{shown, shown_all, Data, Leaf, SymStr};
