//! Graph algorithms built on the dependency graph.

pub mod topk_set;
