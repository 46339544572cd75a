//! Skipping what cannot match, by statistics alone.

pub mod laws;
pub mod predicate;
