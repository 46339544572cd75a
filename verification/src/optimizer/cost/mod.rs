//! What plans cost, for ranking them against each other.

pub mod laws;
pub mod model;
pub mod operators;
