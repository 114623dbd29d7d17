//! Local semantic code search: a per-project indexing and retrieval engine.
//!
//! Source files are parsed into syntax trees, partitioned into size-bounded
//! chunks aligned with syntactic boundaries, embedded as integer vectors, and
//! stored in an in-memory vector store that serves nearest-neighbour queries.

pub mod code_splitter;
pub mod dispatch;
pub mod embedding;
pub mod hashing;
pub mod errors;
pub mod parse;
pub mod project_files;
pub mod project_service;
pub mod rpc;
pub mod project_repository;
pub mod text;
