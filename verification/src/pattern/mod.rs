//! Patterns: what they are, when they are well formed, and how they match.
//!
//! - `data`: patterns, the interface of a value that can be matched, and
//!   the mathematical models of both.
//! - [`parse`]: the notation of patterns.
//! - [`check`]: the check that a pattern has to pass, with [`names`] for
//!   the lists of names it deals in.
//! - [`semantics`]: what matching means.
//! - [`matcher`]: the search that finds one match after another, specified
//!   by [`search`] and held to the semantics by [`equivalence`].
//! - [`strict_matcher`]: the evaluation that finds all matches at once, and
//!   the cross product of result lists.
//! - [`laws`]: what holds of matching, with [`passing`], [`binding`],
//!   [`parts`] and [`soundness`] for the proofs.

mod data;
pub mod binding;
pub mod check;
pub mod equivalence;
pub mod laws;
pub mod matcher;
pub mod names;
pub mod parse;
pub mod parts;
pub mod passing;
pub mod search;
pub mod semantics;
pub mod soundness;
pub mod strict_matcher;

pub use data::{lemma_literal, literal, mirrors, MatchKind, Matchable, Pattern, PatternTree, ValueTree};
