//! Bound expressions.

pub mod expr;
pub mod laws;
