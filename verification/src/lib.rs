//! Citation-preserving ingestion and retrieval core for a personal library:
//! sentence-boundary chunking, markdown / HTML / PDF text assembly, citation
//! locations, store predicates and embedder input checks.

pub mod text;
pub mod chunking;
pub mod error;
pub mod store;
pub mod embed;
pub mod config;
pub mod engine;
pub mod extract;
pub mod ingest;
pub mod discovery;
pub mod spike;
