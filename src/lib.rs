pub mod flight;
pub mod graph;
pub mod chain;
pub mod traversal;
