//! A local hybrid document search engine.
//!
//! Documents are kept in three synchronized stores: an authoritative
//! document store, a lexical (full-text) index, and a vector store holding
//! one fixed-length embedding per document.  Queries run against either
//! index alone or against both, with the hybrid ranker merging the two
//! result sets under a weighted fusion.
//!
//! All scores and embedding components are fixed-point values: the integer
//! `n` stands for the real number `n / SCALE`.  Timestamps are seconds
//! since the epoch and are supplied by the caller, so the engine itself is
//! deterministic and fully verified.

pub mod doc_store;
pub mod engine;
pub mod ingest;
pub mod embed;
pub mod lexical;
pub mod ranker;
pub mod table;
pub mod text;
pub mod traits;
pub mod types;
pub mod vector_store;

pub use engine::MemoryLocalSearchEngine;
pub use embed::LocalEmbedder;
pub use ingest::JsonFileIngestor;
pub use traits::DocumentIndexer;
pub use traits::LocalSearch;
pub use types::DocumentRequest;
pub use types::ScoredPath;
pub use types::SearchError;
pub use types::SearchResult;
pub use types::SearchType;
