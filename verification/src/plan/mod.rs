//! From syntax trees to bound queries.

pub mod binder;
pub mod meaning;
