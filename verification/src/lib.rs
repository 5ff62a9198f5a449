//! Greedy selection of the tasks whose completion unlocks the most
//! downstream work in a dependency graph.

pub mod algorithms;
pub mod closed;
pub mod graph;
pub mod whatif;
