//! The in-memory search engine: the single entry point for mutation and
//! queries.  Every write keeps the document store, the vector store and
//! the lexical index consistent: after any successful operation the
//! three stores hold exactly the same paths, the vector store holds the
//! embedding of each document's content, and the lexical index holds the
//! content itself.
//!
//! The engine is designed for single-writer, synchronous use: callers
//! sharing one engine across threads must serialize externally.  The
//! current time enters as an explicit argument, so the engine itself is
//! a deterministic function of its inputs.
//!
//! The in-memory stores cannot fail once a write has begun, so an
//! operation either fails before touching anything (a strict insert on
//! an existing path) or updates all three stores; the partial-write
//! state a durable backend can reach does not arise here.

use vstd::prelude::*;
use crate::doc_store::{DocModel, DocumentStore};
use crate::embed::{embed_of_text, LocalEmbedder};
use crate::lexical::{entry_matches, LexicalIndex};
use crate::ranker::{
    lemma_lookup_index, norm_score, opt0, rank_hybrid, score_views, scores_of, seq_max,
    seq_min, spec_fuse, sorted_desc_by,
};
use crate::text::{doc_matches, fts_score, tokens_of_text};
use crate::types::{
    meta_view, DocumentRequest, RankedResult, SearchError, SearchResult, SearchType, SCALE,
};
use crate::vector_store::{sim_spec, VectorStore};

verus! {

/// The map after an upsert: content and metadata replaced, `created_at`
/// kept for an existing path and set to `now` for a new one,
/// `updated_at` refreshed.
pub open spec fn spec_upsert(
    m: Map<Seq<char>, DocModel>,
    p: Seq<char>,
    content: Seq<char>,
    metadata: Option<Seq<(Seq<char>, Seq<char>)>>,
    now: u64,
) -> Map<Seq<char>, DocModel> {
    m.insert(
        p,
        (
            content,
            metadata,
            if m.contains_key(p) {
                m[p].2
            } else {
                now
            },
            now,
        ),
    )
}

/// The map after a delete: the path is absent, whether or not it was
/// there before.
pub open spec fn spec_delete(m: Map<Seq<char>, DocModel>, p: Seq<char>) -> Map<
    Seq<char>,
    DocModel,
> {
    m.remove(p)
}

/// Whether the result list runs in non-increasing `final_score` order.
pub open spec fn results_sorted(r: Seq<SearchResult>) -> bool {
    forall|i: int, j: int| 0 <= i < j < r.len() ==> r[i].final_score >= r[j].final_score
}

/// Whether some result carries `p`.
pub open spec fn result_has_path(r: Seq<SearchResult>, p: Seq<char>) -> bool {
    exists|i: int| 0 <= i < r.len() && r[i].path@ == p
}

/// Whether no two results share a path.
pub open spec fn result_paths_distinct(r: Seq<SearchResult>) -> bool {
    forall|i: int, j: int| 0 <= i < j < r.len() ==> r[i].path@ != r[j].path@
}

/// Whether a result's metadata and timestamps are those of its document.
pub open spec fn joined_ok(m: Map<Seq<char>, DocModel>, e: SearchResult) -> bool {
    &&& m.contains_key(e.path@)
    &&& meta_view(e.metadata) == m[e.path@].1
    &&& e.created_at == m[e.path@].2
    &&& e.updated_at == m[e.path@].3
}

/// The in-memory search engine.
pub struct MemoryLocalSearchEngine {
    docs: DocumentStore,
    vectors: VectorStore,
    lexical: LexicalIndex,
    embedder: LocalEmbedder,
}

impl View for MemoryLocalSearchEngine {
    type V = Map<Seq<char>, DocModel>;

    closed spec fn view(&self) -> Map<Seq<char>, DocModel> {
        self.docs@
    }
}

impl MemoryLocalSearchEngine {
    /// The three stores are individually well-formed, hold exactly the
    /// same paths, and the vector store and lexical index hold the
    /// embedding and the content of each document.
    pub closed spec fn wf(&self) -> bool {
        &&& self.docs.wf()
        &&& self.vectors.wf()
        &&& self.lexical.wf()
        &&& forall|p: Seq<char>|
            #[trigger] self.vectors@.contains_key(p) <==> self.docs@.contains_key(p)
        &&& forall|p: Seq<char>|
            #[trigger] self.lexical@.contains_key(p) <==> self.docs@.contains_key(p)
        &&& forall|p: Seq<char>|
            self.docs@.contains_key(p) ==> (#[trigger] self.vectors@[p]) == embed_of_text(
                self.docs@[p].0,
            )
        &&& forall|p: Seq<char>|
            self.docs@.contains_key(p) ==> (#[trigger] self.lexical@[p]) == self.docs@[p].0
    }

    /// Whether the document at `p` matches the query.
    pub open spec fn doc_matched(&self, p: Seq<char>, q: Seq<char>) -> bool {
        self@.contains_key(p) && doc_matches(tokens_of_text(self@[p].0), tokens_of_text(q))
    }

    /// The raw full-text relevance of the document at `p` for the query.
    pub open spec fn raw_fts(&self, p: Seq<char>, q: Seq<char>) -> u64 {
        fts_score(tokens_of_text(self@[p].0), tokens_of_text(q))
    }

    /// The semantic similarity of the document at `p` to the query.
    pub open spec fn sem_score(&self, p: Seq<char>, q: Seq<char>) -> u64 {
        sim_spec(embed_of_text(q), embed_of_text(self@[p].0))
    }

    /// A correct full-text answer: exactly the matching documents, each
    /// joined with its record, scored by raw relevance, sorted.
    pub open spec fn fulltext_results_ok(&self, q: Seq<char>, r: Seq<SearchResult>) -> bool {
        &&& results_sorted(r)
        &&& result_paths_distinct(r)
        &&& forall|p: Seq<char>| #[trigger] result_has_path(r, p) <==> self.doc_matched(p, q)
        &&& forall|i: int|
            0 <= i < r.len() ==> joined_ok(self@, r[i]) && r[i].semantic_score is None
                && r[i].fts_score == Some(self.raw_fts(r[i].path@, q)) && r[i].final_score
                == self.raw_fts(r[i].path@, q)
    }

    /// A correct semantic answer: every document, each joined with its
    /// record, scored by similarity of the embeddings, sorted.
    pub open spec fn semantic_results_ok(&self, q: Seq<char>, r: Seq<SearchResult>) -> bool {
        &&& results_sorted(r)
        &&& result_paths_distinct(r)
        &&& forall|p: Seq<char>| #[trigger] result_has_path(r, p) <==> self@.contains_key(p)
        &&& forall|i: int|
            0 <= i < r.len() ==> joined_ok(self@, r[i]) && r[i].fts_score is None
                && r[i].semantic_score == Some(self.sem_score(r[i].path@, q))
                && r[i].final_score == self.sem_score(r[i].path@, q)
    }

    /// The full-text components of a hybrid answer, min-max normalized
    /// with the extremes `mn` and `mx` of the raw scores over the
    /// matching documents.
    pub open spec fn hybrid_fts_ok(
        &self,
        q: Seq<char>,
        r: Seq<SearchResult>,
        mn: u64,
        mx: u64,
    ) -> bool {
        &&& forall|p: Seq<char>|
            #[trigger] self.doc_matched(p, q) ==> mn <= self.raw_fts(p, q) && self.raw_fts(
                p,
                q,
            ) <= mx
        &&& ((exists|p: Seq<char>| #[trigger] self.doc_matched(p, q)) ==> ((exists|
            p: Seq<char>,
        | #[trigger] self.doc_matched(p, q) && self.raw_fts(p, q) == mn) && (exists|
            p: Seq<char>,
        | #[trigger] self.doc_matched(p, q) && self.raw_fts(p, q) == mx)))
        &&& forall|i: int|
            0 <= i < r.len() ==> r[i].fts_score == (if self.doc_matched(r[i].path@, q) {
                Some(norm_score(self.raw_fts(r[i].path@, q), mn, mx))
            } else {
                None
            })
    }

    /// A correct hybrid answer: every document, the full-text component
    /// min-max normalized over the matching set, the semantic component
    /// for every document, fused 0.6/0.4 and sorted; every fused score
    /// stays within the unit fixed-point range.
    pub open spec fn hybrid_results_ok(&self, q: Seq<char>, r: Seq<SearchResult>) -> bool {
        &&& results_sorted(r)
        &&& result_paths_distinct(r)
        &&& forall|p: Seq<char>| #[trigger] result_has_path(r, p) <==> self@.contains_key(p)
        &&& forall|i: int|
            0 <= i < r.len() ==> joined_ok(self@, r[i]) && r[i].semantic_score == Some(
                self.sem_score(r[i].path@, q),
            ) && r[i].final_score == spec_fuse(
                opt0(r[i].fts_score),
                opt0(r[i].semantic_score),
            ) && r[i].final_score <= SCALE
        &&& exists|mn: u64, mx: u64| self.hybrid_fts_ok(q, r, mn, mx)
    }

    /// An empty engine.
    pub fn new() -> (e: Self)
        ensures
            e@ =~= Map::<Seq<char>, DocModel>::empty(),
            e.wf(),
    {
        MemoryLocalSearchEngine {
            docs: DocumentStore::new(),
            vectors: VectorStore::new(),
            lexical: LexicalIndex::new(),
            embedder: LocalEmbedder::new(),
        }
    }

    /// The total number of documents.
    pub fn stats(&self) -> (n: usize)
        requires
            self.wf(),
        ensures
            n == self@.dom().len(),
    {
        self.docs.count()
    }

    /// Strict insert: fails with `AlreadyExists` when the path is
    /// present, and otherwise writes the record, its embedding and its
    /// lexical entry.
    pub fn insert_document(&mut self, request: DocumentRequest, now: u64) -> (r: Result<
        (),
        SearchError,
    >)
        requires
            old(self).wf(),
        ensures
            final(self).wf(),
            old(self)@.contains_key(request.path@) ==> r == Err::<(), SearchError>(
                SearchError::AlreadyExists,
            ) && final(self)@ == old(self)@,
            !old(self)@.contains_key(request.path@) ==> r == Ok::<(), SearchError>(())
                && final(self)@ == old(self)@.insert(
                request.path@,
                (request.content@, meta_view(request.metadata), now, now),
            ),
    {
        let DocumentRequest { path, content, metadata } = request;
        match self.docs.get(&path) {
            Some(_) => {
                return Err(SearchError::AlreadyExists);
            },
            None => {},
        }
        self.write_all(path, content, metadata, now);
        Ok(())
    }

    /// Upsert: updates the record when the path is present (keeping its
    /// `created_at`), and inserts it otherwise.  The embedding and the
    /// lexical entry are rewritten in both cases.
    pub fn upsert_document(&mut self, request: DocumentRequest, now: u64) -> (r: Result<
        (),
        SearchError,
    >)
        requires
            old(self).wf(),
        ensures
            final(self).wf(),
            r == Ok::<(), SearchError>(()),
            final(self)@ == spec_upsert(
                old(self)@,
                request.path@,
                request.content@,
                meta_view(request.metadata),
                now,
            ),
    {
        let DocumentRequest { path, content, metadata } = request;
        self.write_all(path, content, metadata, now);
        Ok(())
    }

    /// Writes one document to all three stores.
    fn write_all(
        &mut self,
        path: String,
        content: String,
        metadata: Option<Vec<(String, String)>>,
        now: u64,
    )
        requires
            old(self).wf(),
        ensures
            final(self).wf(),
            final(self)@ == spec_upsert(
                old(self)@,
                path@,
                content@,
                meta_view(metadata),
                now,
            ),
    {
        let ghost m0 = self.docs@;
        let ghost v0 = self.vectors@;
        let ghost l0 = self.lexical@;
        self.docs.put(path.clone(), content.clone(), metadata, now);
        let emb = self.embedder.embed_text(content.as_str());
        match self.vectors.put(path.clone(), emb) {
            Ok(()) => {},
            Err(_) => {
                proof {
                    assert(false);
                }
            },
        }
        self.lexical.index(path, content);
        proof {
            assert forall|p2: Seq<char>|
                #[trigger] self.vectors@.contains_key(p2) <==> self.docs@.contains_key(
                    p2,
                ) by {}
            assert forall|p2: Seq<char>|
                #[trigger] self.lexical@.contains_key(p2) <==> self.docs@.contains_key(
                    p2,
                ) by {}
            assert forall|p2: Seq<char>| self.docs@.contains_key(p2) implies (
            #[trigger] self.vectors@[p2]) == embed_of_text(self.docs@[p2].0) && (
            self.lexical@[p2]) == self.docs@[p2].0 by {
                if p2 != path@ {
                    assert(self.vectors@[p2] == v0[p2]);
                    assert(self.lexical@[p2] == l0[p2]);
                    assert(self.docs@[p2] == m0[p2]);
                }
            }
            assert(self@ =~= spec_upsert(m0, path@, content@, meta_view(metadata), now));
        }
    }

    /// Removes the record, the embedding and the lexical entry for
    /// `path`.  All three deletions are attempted; deleting an absent
    /// path is a no-op, so the operation is idempotent and always
    /// succeeds.
    pub fn delete_document(&mut self, path: &str) -> (r: Result<(), SearchError>)
        requires
            old(self).wf(),
        ensures
            final(self).wf(),
            r == Ok::<(), SearchError>(()),
            final(self)@ == spec_delete(old(self)@, path@),
    {
        let key: String = path.to_owned();
        let ghost m0 = self.docs@;
        let ghost v0 = self.vectors@;
        let ghost l0 = self.lexical@;
        self.docs.delete(&key);
        self.vectors.delete(&key);
        self.lexical.remove(&key);
        proof {
            assert forall|p2: Seq<char>| self.docs@.contains_key(p2) implies (
            #[trigger] self.vectors@[p2]) == embed_of_text(self.docs@[p2].0) && (
            self.lexical@[p2]) == self.docs@[p2].0 by {
                assert(self.docs@[p2] == m0[p2]);
                assert(self.vectors@[p2] == v0[p2]);
                assert(self.lexical@[p2] == l0[p2]);
            }
            assert(self@ =~= spec_delete(m0, path@));
        }
        Ok(())
    }

    /// Re-establishes the storage connection state.  The in-memory
    /// backend holds no connection, so the stored data is untouched.
    pub fn refresh(&mut self) -> (r: Result<(), SearchError>)
        ensures
            *final(self) == *old(self),
            r == Ok::<(), SearchError>(()),
    {
        Ok(())
    }

    /// Joins ranked entries with their document records.
    fn join_results(&self, ranked: &Vec<RankedResult>) -> (r: Vec<SearchResult>)
        requires
            self.wf(),
            forall|i: int| 0 <= i < ranked@.len() ==> self@.contains_key(ranked@[i].path@),
        ensures
            r@.len() == ranked@.len(),
            forall|i: int|
                0 <= i < r@.len() ==> r@[i].path@ == ranked@[i].path@ && r@[i].fts_score
                    == ranked@[i].fts_score && r@[i].semantic_score
                    == ranked@[i].semantic_score && r@[i].final_score
                    == ranked@[i].final_score && joined_ok(self@, r@[i]),
    {
        let mut r: Vec<SearchResult> = Vec::new();
        let mut i: usize = 0;
        while i < ranked.len()
            invariant
                self.wf(),
                forall|k: int|
                    0 <= k < ranked@.len() ==> self@.contains_key(ranked@[k].path@),
                0 <= i <= ranked@.len(),
                r@.len() == i,
                forall|k: int|
                    0 <= k < i ==> r@[k].path@ == ranked@[k].path@ && r@[k].fts_score
                        == ranked@[k].fts_score && r@[k].semantic_score
                        == ranked@[k].semantic_score && r@[k].final_score
                        == ranked@[k].final_score && joined_ok(self@, r@[k]),
            decreases ranked@.len() - i,
        {
            match self.docs.get(&ranked[i].path) {
                Some(d) => {
                    let md = crate::types::clone_meta(&d.metadata);
                    r.push(
                        SearchResult {
                            path: ranked[i].path.clone(),
                            metadata: md,
                            created_at: d.created_at,
                            updated_at: d.updated_at,
                            fts_score: ranked[i].fts_score,
                            semantic_score: ranked[i].semantic_score,
                            final_score: ranked[i].final_score,
                        },
                    );
                },
                None => {
                    proof {
                        assert(false);
                    }
                },
            }
            i = i + 1;
        }
        r
    }

    /// Full-text search: the matching documents under their raw
    /// relevance scores.
    pub fn search_fulltext_only(&self, query: &str) -> (r: Vec<SearchResult>)
        requires
            self.wf(),
        ensures
            self.fulltext_results_ok(query@, r@),
    {
        let pairs = self.lexical.search(query);
        let mut ranked: Vec<RankedResult> = Vec::new();
        let mut i: usize = 0;
        while i < pairs.len()
            invariant
                0 <= i <= pairs@.len(),
                ranked@.len() == i,
                forall|k: int|
                    0 <= k < i ==> ranked@[k].path@ == pairs@[k].path@
                        && ranked@[k].fts_score == Some(pairs@[k].score)
                        && ranked@[k].semantic_score is None && ranked@[k].final_score
                        == pairs@[k].score,
            decreases pairs@.len() - i,
        {
            ranked.push(
                RankedResult {
                    path: pairs[i].path.clone(),
                    fts_score: Some(pairs[i].score),
                    semantic_score: None,
                    final_score: pairs[i].score,
                },
            );
            i = i + 1;
        }
        proof {
            assert forall|k: int|
                0 <= k < ranked@.len() implies self@.contains_key(ranked@[k].path@) by {
                assert(self.lexical@.contains_key(pairs@[k].path@));
            }
        }
        let r = self.join_results(&ranked);
        proof {
            let qt = tokens_of_text(query@);
            assert forall|p: Seq<char>| #[trigger] result_has_path(r@, p)
                <==> self.doc_matched(p, query@) by {
                if result_has_path(r@, p) {
                    let k = choose|k: int| 0 <= k < r@.len() && r@[k].path@ == p;
                    assert(pairs@[k].path@ == p);
                    assert(entry_matches(self.lexical@, p, qt));
                }
                if self.doc_matched(p, query@) {
                    assert(entry_matches(self.lexical@, p, qt));
                    let k = choose|k: int| 0 <= k < pairs@.len() && pairs@[k].path@ == p;
                    assert(r@[k].path@ == p);
                }
            }
            assert forall|i2: int| 0 <= i2 < r@.len() implies joined_ok(self@, r@[i2])
                && r@[i2].semantic_score is None && r@[i2].fts_score == Some(
                self.raw_fts(r@[i2].path@, query@),
            ) && r@[i2].final_score == self.raw_fts(r@[i2].path@, query@) by {
                assert(pairs@[i2].score == fts_score(
                    tokens_of_text(self.lexical@[pairs@[i2].path@]),
                    qt,
                ));
                assert(self.lexical@[pairs@[i2].path@] == self@[pairs@[i2].path@].0);
            }
        }
        r
    }

    /// Semantic search: every document under its similarity to the
    /// query's embedding.
    pub fn search_semantic_only(&self, query: &str) -> (r: Vec<SearchResult>)
        requires
            self.wf(),
        ensures
            self.semantic_results_ok(query@, r@),
    {
        let qv = self.embedder.embed_text(query);
        let pairs = self.vectors.search_by_vector(&qv);
        let mut ranked: Vec<RankedResult> = Vec::new();
        let mut i: usize = 0;
        while i < pairs.len()
            invariant
                0 <= i <= pairs@.len(),
                ranked@.len() == i,
                forall|k: int|
                    0 <= k < i ==> ranked@[k].path@ == pairs@[k].path@
                        && ranked@[k].semantic_score == Some(pairs@[k].score)
                        && ranked@[k].fts_score is None && ranked@[k].final_score
                        == pairs@[k].score,
            decreases pairs@.len() - i,
        {
            ranked.push(
                RankedResult {
                    path: pairs[i].path.clone(),
                    fts_score: None,
                    semantic_score: Some(pairs[i].score),
                    final_score: pairs[i].score,
                },
            );
            i = i + 1;
        }
        proof {
            assert forall|k: int|
                0 <= k < ranked@.len() implies self@.contains_key(ranked@[k].path@) by {
                assert(self.vectors@.contains_key(pairs@[k].path@));
            }
        }
        let r = self.join_results(&ranked);
        proof {
            assert forall|p: Seq<char>| #[trigger] result_has_path(r@, p)
                <==> self@.contains_key(p) by {
                if result_has_path(r@, p) {
                    let k = choose|k: int| 0 <= k < r@.len() && r@[k].path@ == p;
                    assert(pairs@[k].path@ == p);
                }
                if self@.contains_key(p) {
                    assert(self.vectors@.contains_key(p));
                    let k = choose|k: int| 0 <= k < pairs@.len() && pairs@[k].path@ == p;
                    assert(r@[k].path@ == p);
                }
            }
            assert forall|i2: int| 0 <= i2 < r@.len() implies joined_ok(self@, r@[i2])
                && r@[i2].fts_score is None && r@[i2].semantic_score == Some(
                self.sem_score(r@[i2].path@, query@),
            ) && r@[i2].final_score == self.sem_score(r@[i2].path@, query@) by {
                assert(pairs@[i2].score == sim_spec(qv@, self.vectors@[pairs@[i2].path@]));
                assert(self.vectors@[pairs@[i2].path@] == embed_of_text(
                    self@[pairs@[i2].path@].0,
                ));
            }
        }
        r
    }

    /// Hybrid search: both indexes queried, full-text scores min-max
    /// normalized, the two components fused 0.6/0.4, sorted by the
    /// fused score.
    #[verifier::rlimit(100)]
    pub fn search_hybrid(&self, query: &str) -> (r: Vec<SearchResult>)
        requires
            self.wf(),
        ensures
            self.hybrid_results_ok(query@, r@),
    {
        let fts_pairs = self.lexical.search(query);
        let qv = self.embedder.embed_text(query);
        let sem_pairs = self.vectors.search_by_vector(&qv);
        proof {
            assert forall|a: int, b: int|
                0 <= a < b < score_views(fts_pairs@).len() implies score_views(
                fts_pairs@,
            )[a].0 != score_views(fts_pairs@)[b].0 by {
                assert(fts_pairs@[a].path@ != fts_pairs@[b].path@);
            }
            assert forall|a: int, b: int|
                0 <= a < b < score_views(sem_pairs@).len() implies score_views(
                sem_pairs@,
            )[a].0 != score_views(sem_pairs@)[b].0 by {
                assert(sem_pairs@[a].path@ != sem_pairs@[b].path@);
            }
        }
        let ranked = rank_hybrid(&fts_pairs, &sem_pairs);
        let ghost qt = tokens_of_text(query@);
        proof {
            assert forall|k: int|
                0 <= k < ranked@.len() implies self@.contains_key(ranked@[k].path@) by {
                assert(exists|i: int|
                    0 <= i < ranked@.len() && ranked@[i].path@ == ranked@[k].path@) by {
                    assert(ranked@[k].path@ == ranked@[k].path@);
                }
                lemma_lookup_index(score_views(fts_pairs@), ranked@[k].path@);
                lemma_lookup_index(score_views(sem_pairs@), ranked@[k].path@);
                if crate::ranker::lookup_score(score_views(fts_pairs@), ranked@[k].path@)
                    is Some {
                    let x = choose|x: int|
                        0 <= x < score_views(fts_pairs@).len() && score_views(
                            fts_pairs@,
                        )[x].0 == ranked@[k].path@;
                    assert(fts_pairs@[x].path@ == ranked@[k].path@);
                    assert(self.lexical@.contains_key(ranked@[k].path@));
                } else {
                    let x = choose|x: int|
                        0 <= x < score_views(sem_pairs@).len() && score_views(
                            sem_pairs@,
                        )[x].0 == ranked@[k].path@;
                    assert(sem_pairs@[x].path@ == ranked@[k].path@);
                    assert(self.vectors@.contains_key(ranked@[k].path@));
                }
            }
        }
        let r = self.join_results(&ranked);
        proof {
            self.lemma_hybrid_post(query@, qv@, fts_pairs@, sem_pairs@, ranked@, r@);
        }
        r
    }

    /// The glue between the ranker's contract and the hybrid answer's
    /// correctness statement.
    #[verifier::rlimit(100)]
    proof fn lemma_hybrid_post(
        &self,
        q: Seq<char>,
        qv: Seq<u64>,
        fts_pairs: Seq<crate::types::ScoredPath>,
        sem_pairs: Seq<crate::types::ScoredPath>,
        ranked: Seq<RankedResult>,
        r: Seq<SearchResult>,
    )
        requires
            self.wf(),
            qv == embed_of_text(q),
            // the lexical search contract
            forall|a: int, b: int|
                0 <= a < b < fts_pairs.len() ==> fts_pairs[a].path@ != fts_pairs[b].path@,
            forall|p: Seq<char>|
                (exists|i: int| 0 <= i < fts_pairs.len() && fts_pairs[i].path@ == p)
                    <==> entry_matches(self.lexical_view(), p, tokens_of_text(q)),
            forall|i: int|
                0 <= i < fts_pairs.len() ==> self.lexical_view().contains_key(
                    fts_pairs[i].path@,
                ) && fts_pairs[i].score == fts_score(
                    tokens_of_text(self.lexical_view()[fts_pairs[i].path@]),
                    tokens_of_text(q),
                ),
            // the vector search contract
            forall|a: int, b: int|
                0 <= a < b < sem_pairs.len() ==> sem_pairs[a].path@ != sem_pairs[b].path@,
            forall|p: Seq<char>|
                (exists|i: int| 0 <= i < sem_pairs.len() && sem_pairs[i].path@ == p)
                    <==> self.vectors_view().contains_key(p),
            forall|i: int|
                0 <= i < sem_pairs.len() ==> self.vectors_view().contains_key(
                    sem_pairs[i].path@,
                ) && sem_pairs[i].score == sim_spec(
                    qv,
                    self.vectors_view()[sem_pairs[i].path@],
                ),
            // the ranker contract
            sorted_desc_by(ranked),
            forall|i: int, j: int| 0 <= i < j < ranked.len() ==> ranked[i].path@ != ranked[j].path@,
            forall|p: Seq<char>|
                (exists|i: int| 0 <= i < ranked.len() && ranked[i].path@ == p) <==> (
                crate::ranker::lookup_score(score_views(fts_pairs), p) is Some
                    || crate::ranker::lookup_score(score_views(sem_pairs), p) is Some),
            forall|i: int|
                0 <= i < ranked.len() ==> ranked[i].fts_score == (
                match crate::ranker::lookup_score(score_views(fts_pairs), ranked[i].path@) {
                    Some(x) => Some(
                        norm_score(x, seq_min(scores_of(fts_pairs)), seq_max(
                            scores_of(fts_pairs),
                        )),
                    ),
                    None => None::<u64>,
                }) && ranked[i].semantic_score == crate::ranker::lookup_score(
                    score_views(sem_pairs),
                    ranked[i].path@,
                ) && ranked[i].final_score == spec_fuse(
                    opt0(ranked[i].fts_score),
                    opt0(ranked[i].semantic_score),
                ) && ranked[i].final_score <= SCALE,
            // the join contract
            r.len() == ranked.len(),
            forall|i: int|
                0 <= i < r.len() ==> r[i].path@ == ranked[i].path@ && r[i].fts_score
                    == ranked[i].fts_score && r[i].semantic_score == ranked[i].semantic_score
                    && r[i].final_score == ranked[i].final_score && joined_ok(self@, r[i]),
        ensures
            self.hybrid_results_ok(q, r),
    {
        let qt = tokens_of_text(q);
        let ftsv = score_views(fts_pairs);
        let semv = score_views(sem_pairs);
        assert forall|p: Seq<char>| #[trigger] result_has_path(r, p)
            <==> self@.contains_key(p) by {
            lemma_lookup_index(ftsv, p);
            lemma_lookup_index(semv, p);
            if result_has_path(r, p) {
                let k = choose|k: int| 0 <= k < r.len() && r[k].path@ == p;
                assert(joined_ok(self@, r[k]));
            }
            if self@.contains_key(p) {
                assert(self.vectors_view().contains_key(p));
                let x = choose|x: int| 0 <= x < sem_pairs.len() && sem_pairs[x].path@ == p;
                assert(semv[x].0 == p);
                assert(crate::ranker::lookup_score(semv, p) is Some);
                let k = choose|k: int| 0 <= k < ranked.len() && ranked[k].path@ == p;
                assert(r[k].path@ == p);
            }
        }
        assert forall|i: int| 0 <= i < r.len() implies joined_ok(self@, r[i])
            && r[i].semantic_score == Some(self.sem_score(r[i].path@, q))
            && r[i].final_score == spec_fuse(opt0(r[i].fts_score), opt0(r[i].semantic_score))
            && r[i].final_score <= SCALE by {
            let p = r[i].path@;
            lemma_lookup_index(semv, p);
            assert(self@.contains_key(p));
            assert(self.vectors_view().contains_key(p));
            let x = choose|x: int| 0 <= x < sem_pairs.len() && sem_pairs[x].path@ == p;
            assert(semv[x].0 == p && semv[x].1 == sem_pairs[x].score);
            assert(crate::ranker::lookup_score(semv, p) == Some(sem_pairs[x].score));
            assert(sem_pairs[x].score == sim_spec(qv, self.vectors_view()[p]));
            assert(self.vectors_view()[p] == embed_of_text(self@[p].0));
        }
        let mn = seq_min(scores_of(fts_pairs));
        let mx = seq_max(scores_of(fts_pairs));
        assert(self.hybrid_fts_ok(q, r, mn, mx)) by {
            assert forall|p: Seq<char>| #[trigger] self.doc_matched(p, q) implies mn
                <= self.raw_fts(p, q) && self.raw_fts(p, q) <= mx by {
                assert(entry_matches(self.lexical_view(), p, qt));
                let x = choose|x: int| 0 <= x < fts_pairs.len() && fts_pairs[x].path@ == p;
                assert(fts_pairs[x].score == self.raw_fts(p, q));
                assert(scores_of(fts_pairs)[x] == fts_pairs[x].score);
                crate::ranker::lemma_min_max(scores_of(fts_pairs));
            }
            if exists|p: Seq<char>| #[trigger] self.doc_matched(p, q) {
                let p0 = choose|p: Seq<char>| #[trigger] self.doc_matched(p, q);
                assert(entry_matches(self.lexical_view(), p0, qt));
                let x0 = choose|x: int|
                    0 <= x < fts_pairs.len() && fts_pairs[x].path@ == p0;
                crate::ranker::lemma_min_max(scores_of(fts_pairs));
                let xm = choose|x: int|
                    0 <= x < scores_of(fts_pairs).len() && scores_of(fts_pairs)[x] == mn;
                assert(fts_pairs[xm].score == mn);
                assert(self.doc_matched(fts_pairs[xm].path@, q) && self.raw_fts(
                    fts_pairs[xm].path@,
                    q,
                ) == mn) by {
                    assert(entry_matches(self.lexical_view(), fts_pairs[xm].path@, qt));
                }
                let xx = choose|x: int|
                    0 <= x < scores_of(fts_pairs).len() && scores_of(fts_pairs)[x] == mx;
                assert(fts_pairs[xx].score == mx);
                assert(self.doc_matched(fts_pairs[xx].path@, q) && self.raw_fts(
                    fts_pairs[xx].path@,
                    q,
                ) == mx) by {
                    assert(entry_matches(self.lexical_view(), fts_pairs[xx].path@, qt));
                }
            }
            assert forall|i: int| 0 <= i < r.len() implies r[i].fts_score == (if self
                .doc_matched(r[i].path@, q) {
                Some(norm_score(self.raw_fts(r[i].path@, q), mn, mx))
            } else {
                None
            }) by {
                let p = r[i].path@;
                lemma_lookup_index(ftsv, p);
                if self.doc_matched(p, q) {
                    assert(entry_matches(self.lexical_view(), p, qt));
                    let x = choose|x: int|
                        0 <= x < fts_pairs.len() && fts_pairs[x].path@ == p;
                    assert(ftsv[x].0 == p && ftsv[x].1 == fts_pairs[x].score);
                    assert(crate::ranker::lookup_score(ftsv, p) == Some(
                        fts_pairs[x].score,
                    ));
                    assert(fts_pairs[x].score == self.raw_fts(p, q));
                } else {
                    assert(crate::ranker::lookup_score(ftsv, p) is None) by {
                        if crate::ranker::lookup_score(ftsv, p) is Some {
                            let x = choose|x: int|
                                0 <= x < ftsv.len() && ftsv[x].0 == p;
                            assert(fts_pairs[x].path@ == p);
                            assert(entry_matches(self.lexical_view(), p, qt));
                            assert(false);
                        }
                    }
                }
            }
        }
    }

    /// The lexical index's contents.
    pub closed spec fn lexical_view(&self) -> Map<Seq<char>, Seq<char>> {
        self.lexical@
    }

    /// The vector store's contents.
    pub closed spec fn vectors_view(&self) -> Map<Seq<char>, Seq<u64>> {
        self.vectors@
    }

    /// Routes a query to the index (or indexes) named by the mode.
    pub fn search(&self, query: &str, search_type: SearchType) -> (r: Result<
        Vec<SearchResult>,
        SearchError,
    >)
        requires
            self.wf(),
        ensures
            match r {
                Ok(results) => match search_type {
                    SearchType::FullText => self.fulltext_results_ok(query@, results@),
                    SearchType::Semantic => self.semantic_results_ok(query@, results@),
                    SearchType::Hybrid => self.hybrid_results_ok(query@, results@),
                },
                Err(_) => false,
            },
    {
        match search_type {
            SearchType::FullText => Ok(self.search_fulltext_only(query)),
            SearchType::Semantic => Ok(self.search_semantic_only(query)),
            SearchType::Hybrid => Ok(self.search_hybrid(query)),
        }
    }
}

impl crate::traits::DocumentIndexer for MemoryLocalSearchEngine {
    open spec fn inv(&self) -> bool {
        self.wf()
    }

    open spec fn model(&self) -> Map<Seq<char>, DocModel> {
        self@
    }

    fn insert_document(&mut self, request: DocumentRequest, now: u64) -> Result<
        (),
        SearchError,
    > {
        self.insert_document(request, now)
    }

    fn upsert_document(&mut self, request: DocumentRequest, now: u64) -> Result<
        (),
        SearchError,
    > {
        self.upsert_document(request, now)
    }

    fn delete_document(&mut self, path: &str) -> Result<(), SearchError> {
        self.delete_document(path)
    }

    fn refresh(&mut self) -> Result<(), SearchError> {
        self.refresh()
    }
}

impl crate::traits::LocalSearch for MemoryLocalSearchEngine {
    open spec fn inv(&self) -> bool {
        self.wf()
    }

    fn search(&self, query: &str, search_type: SearchType) -> Result<
        Vec<SearchResult>,
        SearchError,
    > {
        self.search(query, search_type)
    }
}

impl MemoryLocalSearchEngine {
    /// Consistency of the stores: in a well-formed engine the vector
    /// store and the lexical index hold exactly the document store's
    /// paths — one entry each — and under every stored path the
    /// embedding and the content of its document.  No assumption on
    /// the contents is needed.
    pub proof fn lemma_store_consistency(&self)
        requires
            self.wf(),
        ensures
            forall|p: Seq<char>|
                #[trigger] self.vectors_view().contains_key(p) <==> self@.contains_key(p),
            forall|p: Seq<char>|
                #[trigger] self.lexical_view().contains_key(p) <==> self@.contains_key(p),
            forall|p: Seq<char>|
                self@.contains_key(p) ==> (#[trigger] self.vectors_view()[p])
                    == embed_of_text(self@[p].0),
            forall|p: Seq<char>|
                self@.contains_key(p) ==> (#[trigger] self.lexical_view()[p])
                    == self@[p].0,
    {
    }

    /// The deletion counterpart: a path absent from the document store
    /// — in particular one just deleted — is absent from the vector
    /// store and the lexical index as well.
    pub proof fn lemma_deleted_path_absent(&self, p: Seq<char>)
        requires
            self.wf(),
            !self@.contains_key(p),
        ensures
            !self.vectors_view().contains_key(p),
            !self.lexical_view().contains_key(p),
    {
    }

    /// Retrievability: a document whose content holds the token `t`
    /// matches the single-token query `[t]` with a positive relevance
    /// score, so a full-text search on that token returns it.
    pub proof fn lemma_token_retrievable(&self, p: Seq<char>, t: Seq<u8>)
        requires
            self.wf(),
            self@.contains_key(p),
            tokens_of_text(self@[p].0).contains(t),
        ensures
            doc_matches(tokens_of_text(self@[p].0), seq![t]),
            fts_score(tokens_of_text(self@[p].0), seq![t]) >= 1,
    {
        assert(doc_matches(tokens_of_text(self@[p].0), seq![t])) by {
            assert(seq![t].len() == 1 && seq![t][0] == t);
        }
        crate::text::lemma_match_score_pos(tokens_of_text(self@[p].0), seq![t]);
    }

    /// The walkthrough of the search modes: in a well-formed engine
    /// holding "the quick fox" under `pa` and "the lazy dog" under
    /// `pb`, any correct full-text answer for the query "fox" contains
    /// `pa` but not `pb` and carries no semantic component; any correct
    /// semantic answer contains both with no full-text component; and
    /// any correct hybrid answer contains both, `pa` with both
    /// component scores, `pb` with only the semantic one, the missing
    /// full-text component contributing zero to its fused score.
    pub proof fn lemma_scenario(
        e: &MemoryLocalSearchEngine,
        pa: Seq<char>,
        pb: Seq<char>,
        r_full: Seq<SearchResult>,
        r_sem: Seq<SearchResult>,
        r_hyb: Seq<SearchResult>,
    )
        requires
            e.wf(),
            pa != pb,
            e@.contains_key(pa),
            e@[pa].0 == "the quick fox"@,
            e@.contains_key(pb),
            e@[pb].0 == "the lazy dog"@,
            e.fulltext_results_ok("fox"@, r_full),
            e.semantic_results_ok("fox"@, r_sem),
            e.hybrid_results_ok("fox"@, r_hyb),
        ensures
            result_has_path(r_full, pa),
            !result_has_path(r_full, pb),
            forall|i: int| 0 <= i < r_full.len() ==> r_full[i].semantic_score is None,
            result_has_path(r_sem, pa),
            result_has_path(r_sem, pb),
            forall|i: int|
                0 <= i < r_sem.len() ==> r_sem[i].fts_score is None
                    && r_sem[i].semantic_score is Some,
            result_has_path(r_hyb, pa),
            result_has_path(r_hyb, pb),
            forall|i: int|
                0 <= i < r_hyb.len() && r_hyb[i].path@ == pa ==> r_hyb[i].fts_score
                    is Some && r_hyb[i].semantic_score is Some,
            forall|i: int|
                0 <= i < r_hyb.len() && r_hyb[i].path@ == pb ==> r_hyb[i].fts_score
                    is None && r_hyb[i].semantic_score is Some && r_hyb[i].final_score
                    == spec_fuse(0, opt0(r_hyb[i].semantic_score)),
    {
        crate::text::lemma_scenario_tokens();
        assert(e.doc_matched(pa, "fox"@));
        assert(!e.doc_matched(pb, "fox"@));
        let (mn, mx) = choose|mn: u64, mx: u64| e.hybrid_fts_ok("fox"@, r_hyb, mn, mx);
        assert(e.hybrid_fts_ok("fox"@, r_hyb, mn, mx));
        assert forall|i: int|
            0 <= i < r_hyb.len() && r_hyb[i].path@ == pa implies r_hyb[i].fts_score
            is Some && r_hyb[i].semantic_score is Some by {
            assert(r_hyb[i].fts_score == Some(
                norm_score(e.raw_fts(pa, "fox"@), mn, mx),
            ));
        }
        assert forall|i: int|
            0 <= i < r_hyb.len() && r_hyb[i].path@ == pb implies r_hyb[i].fts_score
            is None && r_hyb[i].semantic_score is Some && r_hyb[i].final_score
            == spec_fuse(0, opt0(r_hyb[i].semantic_score)) by {
            assert(r_hyb[i].fts_score == None::<u64>);
            assert(r_hyb[i].final_score == spec_fuse(
                opt0(r_hyb[i].fts_score),
                opt0(r_hyb[i].semantic_score),
            ));
        }
    }

    /// Idempotent delete: removing a path twice leaves the same state
    /// as removing it once, and `delete_document` reports success both
    /// times, so the two calls have the same observable result.
    pub proof fn lemma_delete_idempotent(m: Map<Seq<char>, DocModel>, p: Seq<char>)
        ensures
            spec_delete(spec_delete(m, p), p) =~= spec_delete(m, p),
    {
    }

    /// Upsert semantics: two upserts of the same path leave exactly one
    /// document there, holding the second content and metadata, with
    /// `created_at` unchanged from the first write and `updated_at`
    /// strictly increased across the two calls.
    pub proof fn lemma_upsert_twice(
        m: Map<Seq<char>, DocModel>,
        p: Seq<char>,
        c1: Seq<char>,
        meta1: Option<Seq<(Seq<char>, Seq<char>)>>,
        t1: u64,
        c2: Seq<char>,
        meta2: Option<Seq<(Seq<char>, Seq<char>)>>,
        t2: u64,
    )
        requires
            t1 < t2,
        ensures
            ({
                let m1 = spec_upsert(m, p, c1, meta1, t1);
                let m2 = spec_upsert(m1, p, c2, meta2, t2);
                &&& m2 =~= m.insert(p, (c2, meta2, m1[p].2, t2))
                &&& m2[p].0 == c2
                &&& m2[p].1 == meta2
                &&& m2[p].2 == m1[p].2
                &&& m2[p].3 == t2
                &&& m2[p].3 > m1[p].3
            }),
    {
    }
}

} // verus!
