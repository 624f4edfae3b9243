pub mod algorithms;
pub mod spatial;
pub mod types;
