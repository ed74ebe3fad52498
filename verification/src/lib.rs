//! An in-memory knowledge graph of cognitive events with typed edges, the
//! indexes derived from it, and the discrete part of its query engine.
//!
//! Real-valued attributes (confidence, decay, edge weight, vector components)
//! are carried as IEEE-754 single-precision bit patterns; see [`unit`].

pub mod engine;
pub mod format;
pub mod graph;
pub mod index;
pub mod rank;
pub mod text;
pub mod tokenizer;
pub mod tools;
pub mod types;
pub mod unit;
pub mod wire;
pub mod write;
