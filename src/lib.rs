//! Counts how often each lint-suppression directive is used across a tree of
//! Ruby sources.

pub mod text;
pub mod directive;
pub mod tally;
pub mod discover;
pub mod scan;
