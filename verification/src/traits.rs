//! The storage-backend interface: the engine and any driver around it
//! depend only on these traits, never on a concrete backend.
//!
//! Each implementor names its invariant and the document map it stands
//! for, and every operation is tied to that map.  A failing write may
//! leave the map unchanged or may have completed the document record
//! before a dependent index write failed — the recognized partial-write
//! state of a durable backend — and promises nothing more.

use vstd::prelude::*;
use crate::doc_store::DocModel;
use crate::engine::spec_upsert;
use crate::types::{meta_view, DocumentRequest, SearchError, SearchResult, SearchType};

verus! {

/// The mutating operations of a document indexer.
pub trait DocumentIndexer: Sized {
    /// The implementor's well-formedness invariant, established by its
    /// constructor and preserved by every operation.
    spec fn inv(&self) -> bool;

    /// The document map the implementor stands for.
    spec fn model(&self) -> Map<Seq<char>, DocModel>;

    /// Strict insert: fails when the path is already present.
    fn insert_document(&mut self, request: DocumentRequest, now: u64) -> (r: Result<
        (),
        SearchError,
    >)
        requires
            old(self).inv(),
        ensures
            final(self).inv(),
            r is Ok ==> !old(self).model().contains_key(request.path@) && final(self).model()
                == old(self).model().insert(
                request.path@,
                (request.content@, meta_view(request.metadata), now, now),
            ),
            r is Err ==> final(self).model() == old(self).model() || final(self).model()
                == old(self).model().insert(
                request.path@,
                (request.content@, meta_view(request.metadata), now, now),
            ),
    ;

    /// Insert or update, whichever the path calls for.
    fn upsert_document(&mut self, request: DocumentRequest, now: u64) -> (r: Result<
        (),
        SearchError,
    >)
        requires
            old(self).inv(),
        ensures
            final(self).inv(),
            r is Ok ==> final(self).model() == spec_upsert(
                old(self).model(),
                request.path@,
                request.content@,
                meta_view(request.metadata),
                now,
            ),
            r is Err ==> final(self).model() == old(self).model() || final(self).model()
                == spec_upsert(
                old(self).model(),
                request.path@,
                request.content@,
                meta_view(request.metadata),
                now,
            ),
    ;

    /// Removes the document from every store; idempotent.
    fn delete_document(&mut self, path: &str) -> (r: Result<(), SearchError>)
        requires
            old(self).inv(),
        ensures
            final(self).inv(),
            r is Ok ==> final(self).model() == old(self).model().remove(path@),
            r is Err ==> final(self).model() == old(self).model() || final(self).model()
                == old(self).model().remove(path@),
    ;

    /// Re-establishes the storage connection state.  Nothing is
    /// promised of the map: re-pointing at current persisted state may
    /// surface changes made outside this instance.
    fn refresh(&mut self) -> (r: Result<(), SearchError>)
        requires
            old(self).inv(),
        ensures
            final(self).inv(),
    ;
}

/// The query surface.
pub trait LocalSearch: Sized {
    /// The implementor's well-formedness invariant.
    spec fn inv(&self) -> bool;

    /// Answers a query under the given mode.
    fn search(&self, query: &str, search_type: SearchType) -> (r: Result<
        Vec<SearchResult>,
        SearchError,
    >)
        requires
            self.inv(),
    ;
}

} // verus!
