//! Reachability of recursively referenced function declarations.
pub mod arena;
pub mod flags;
pub mod ids;
pub mod scoping;
pub mod graph;
pub mod reachability;
pub mod hooks;
pub mod laws;
