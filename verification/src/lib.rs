//! The n-coalescent: a continuous-time Markov process on the set-partitions of
//! `{0, .., n - 1}` that merges two sets at a time, and the genealogies that
//! its complete runs describe.

pub mod partition;
pub mod random;
pub mod coalescent;
pub mod graph;
pub mod genealogy;
pub mod divergence;
pub mod statistics;

pub use partition::Partition;
pub use coalescent::Coalescent;
pub use graph::AncestryGraph;
pub use genealogy::Genealogy;
