//! What surrounds a graph at run time: persistence and the registry of graphs.

pub mod loader_agent;
pub mod persist;
pub mod registry;
