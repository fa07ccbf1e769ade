//! Structural pattern matching on tree-shaped values.
//!
//! A value is an atom, a named constructor with ordered children, or a
//! list. A pattern describes the shape of values, captures parts of them
//! under names, slides over lists, walks along paths through nested values,
//! combines alternatives, and refers back to what it captured. Matching a
//! pattern against a value finds every way in which the pattern is
//! satisfied, each with its own bindings, in a fixed order.
//!
//! A pattern is checked before it is matched: [`pattern::check`] refuses
//! patterns that are ill formed whatever the value, and tells which names
//! every match will bind. [`pattern::matcher`] then finds the matches one
//! at a time; [`pattern::strict_matcher`] finds them all at once. What both
//! compute is said by [`pattern::semantics`], and [`pattern::laws`] states
//! what follows from it.
//!
//! [`data`] holds the values that the library brings along, with their
//! notation; [`parsing`] holds what the notations of values and of patterns
//! share.

pub mod data;
pub mod parsing;
pub mod pattern;
