//! A typed property graph held in memory: named nodes that carry a payload,
//! named relation kinds that many connections share, and the bookkeeping that
//! keeps adjacency, degrees and usage counters consistent.

pub mod models;
pub mod runtime;
