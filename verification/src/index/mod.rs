//! Hybrid search: the bookkeeping of a full-text index and a vector index, and the
//! fusion of their rankings.

pub mod error;
pub mod hnsw;
pub mod query;
pub mod rrf;
pub mod semantic;
pub mod text;
pub mod types;
