//! Structures derived from the graph for fast lookup. Each one can be built
//! from a graph in one pass and kept up to date node by node.

pub mod doc_lengths;
pub mod session_index;
pub mod sorted;
pub mod temporal_index;
pub mod term_index;
pub mod term_order;
pub mod type_index;
