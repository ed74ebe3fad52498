//! The query engine: retrieval, graph algorithms, analyses and consolidation.

pub mod analogical;
pub mod cognitive;
pub mod drift;
pub mod graph_algo;
pub mod maintenance;
pub mod query;
pub mod relevance;
pub mod search_paths;
pub mod text_search;
