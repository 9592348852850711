//! Similarity queries against a static word-embedding table.
//!
//! The library parses a small expression language for vector arithmetic over
//! words, evaluates expressions against an in-memory embedding store, ranks
//! store entries by similarity scores, and rewrites text by substituting each
//! word with a neighbour or analogy-derived replacement.
//!
//! Vector components and similarity scores are carried as the `u64` bit
//! patterns of IEEE 754 double-precision numbers.  The caller computes the
//! numeric scores; every decision taken on them here (ordering, thresholds,
//! tie-breaks, selection) is verified over the bit patterns.

pub mod calc;
pub mod lexer;
pub mod model;
pub mod query;
pub mod score;
pub mod search;
pub mod subst;
pub mod text;
