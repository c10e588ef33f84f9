//! Searching shell history: dialect-aware normalisation of raw history lines,
//! a deduplicating line index, and multi-term substring matching.

pub mod dialect;
pub mod dialect_lemmas;
pub mod index;
pub mod index_lemmas;
pub mod matcher;
pub mod matcher_lemmas;
pub mod query;
pub mod query_lemmas;
pub mod setup;
pub mod text;
