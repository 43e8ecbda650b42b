//! The graph's data model and its operations.

pub mod audit;
pub mod graph_models;
pub mod invariants;
pub mod laws;
pub mod node_types;
pub mod ranking;
pub mod records;
pub mod snapshot;
pub mod steps;
pub mod structure;
pub mod text;
pub mod walks;
