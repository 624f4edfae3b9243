pub mod graph;
pub mod protocol;
