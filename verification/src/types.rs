//! Core data types of the search engine: requests, results, errors, and
//! the fixed-point score conventions shared by every component.

use vstd::prelude::*;

verus! {

/// Fixed-point scale: the integer `n` stands for the real number
/// `n / SCALE`, so `SCALE` itself stands for `1.0`.
pub const SCALE: u64 = 1_000_000;

/// Upper bound on a raw full-text relevance score.  Scoring saturates at
/// this cap, which keeps the min-max normalization free of overflow.
pub const SCORE_CAP: u64 = 1_000_000;

/// Number of components in every embedding vector.
pub const EMBED_DIM: usize = 8;

/// Embedding components are reduced modulo this value, so each component
/// is at most `EMBED_MOD - 1`.  The bound is chosen so that the dot
/// product of two embeddings never exceeds `SCALE * SCALE`, which keeps
/// every similarity score within the unit fixed-point range.
pub const EMBED_MOD: u64 = 350_001;

/// Weight of the normalized full-text score in hybrid fusion (0.6).
pub const FTS_WEIGHT: u64 = 6;

/// Weight of the semantic score in hybrid fusion (0.4).
pub const SEM_WEIGHT: u64 = 4;

/// Denominator of the fusion weights.
pub const WEIGHT_DEN: u64 = 10;

/// Which index a query runs against.
#[derive(Clone, Copy, Debug, PartialEq, Eq, Structural)]
pub enum SearchType {
    FullText,
    Semantic,
    Hybrid,
}

/// The errors an engine operation can report.
#[derive(Clone, Copy, Debug, PartialEq, Eq, Structural)]
pub enum SearchError {
    /// Persisted storage cannot be opened or reached.
    StorageUnavailable,
    /// The operation targets a path that does not exist.
    NotFound,
    /// A strict insert hit a path that is already present.
    AlreadyExists,
    /// Metadata cannot be encoded or decoded.
    SerializationError,
    /// The embedding provider failed to produce a vector.
    EmbeddingError,
    /// A stored vector and a query vector have different lengths.
    DimensionMismatch,
    /// The document record was written but a dependent index write
    /// failed; the record is left present but under-indexed.
    PartialWriteFailure,
}

impl SearchError {
    /// A short human-readable name for the error.
    pub fn message(&self) -> &'static str {
        match self {
            SearchError::StorageUnavailable => "storage unavailable",
            SearchError::NotFound => "not found",
            SearchError::AlreadyExists => "already exists",
            SearchError::SerializationError => "serialization error",
            SearchError::EmbeddingError => "embedding error",
            SearchError::DimensionMismatch => "dimension mismatch",
            SearchError::PartialWriteFailure => "partial write failure",
        }
    }
}

/// A request to store one document.  Metadata is an optional list of
/// key/value pairs, opaque to the engine and round-tripped verbatim.
#[derive(Clone, Debug)]
pub struct DocumentRequest {
    pub path: String,
    pub content: String,
    pub metadata: Option<Vec<(String, String)>>,
}

/// The mathematical value of a metadata field.
pub open spec fn meta_view(m: Option<Vec<(String, String)>>) -> Option<
    Seq<(Seq<char>, Seq<char>)>,
> {
    match m {
        None => None,
        Some(pairs) => Some(pairs@.map_values(|p: (String, String)| (p.0@, p.1@))),
    }
}

/// Copies one metadata value; the copy's mathematical value equals the
/// original's.
pub fn clone_meta(m: &Option<Vec<(String, String)>>) -> (r: Option<Vec<(String, String)>>)
    ensures
        meta_view(r) == meta_view(*m),
{
    match m {
        None => None,
        Some(v) => {
            let mut out: Vec<(String, String)> = Vec::new();
            let mut i: usize = 0;
            while i < v.len()
                invariant
                    0 <= i <= v@.len(),
                    out@.len() == i,
                    forall|k: int|
                        0 <= k < i ==> out@[k].0@ == v@[k].0@ && out@[k].1@ == v@[k].1@,
                decreases v@.len() - i,
            {
                out.push((v[i].0.clone(), v[i].1.clone()));
                i = i + 1;
            }
            proof {
                assert(out@.map_values(|pr: (String, String)| (pr.0@, pr.1@)) =~= v@
                    .map_values(|pr: (String, String)| (pr.0@, pr.1@)));
            }
            Some(out)
        },
    }
}

impl DocumentRequest {
    /// Copies the request, field by field, so that the copy's
    /// mathematical values equal the original's.
    pub fn duplicate(&self) -> (r: DocumentRequest)
        ensures
            r.path@ == self.path@,
            r.content@ == self.content@,
            meta_view(r.metadata) == meta_view(self.metadata),
    {
        DocumentRequest {
            path: self.path.clone(),
            content: self.content.clone(),
            metadata: clone_meta(&self.metadata),
        }
    }
}

/// One entry of a ranked answer to a query.
#[derive(Clone, Debug)]
pub struct SearchResult {
    pub path: String,
    pub metadata: Option<Vec<(String, String)>>,
    /// Seconds since the epoch at which the document was first stored.
    pub created_at: u64,
    /// Seconds since the epoch of the last successful write.
    pub updated_at: u64,
    /// Full-text relevance, absent when the query did not run against the
    /// lexical index or the document did not match it.
    pub fts_score: Option<u64>,
    /// Semantic similarity, absent when the query did not run against the
    /// vector store.
    pub semantic_score: Option<u64>,
    /// The score the result list is ordered by.
    pub final_score: u64,
}

/// A path together with one component score, as produced by a single
/// index before ranking.
#[derive(Clone, Debug)]
pub struct ScoredPath {
    pub path: String,
    pub score: u64,
}

/// One entry of the hybrid ranker's output: the component scores that
/// were present for the path, and the fused score.
#[derive(Clone, Debug)]
pub struct RankedResult {
    pub path: String,
    pub fts_score: Option<u64>,
    pub semantic_score: Option<u64>,
    pub final_score: u64,
}

} // verus!
