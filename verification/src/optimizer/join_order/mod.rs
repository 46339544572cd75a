//! The order in which relations are joined.

pub mod dp;
pub mod dpccp;
pub mod graph;
pub mod greedy;
pub mod joined_laws;
pub mod laws;
pub mod subset_laws;
pub mod subsets;
pub mod tree_laws;
