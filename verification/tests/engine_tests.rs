use local_search_engine::engine::MemoryLocalSearchEngine;
use local_search_engine::types::{DocumentRequest, SearchError, SearchType};

fn req(path: &str, content: &str) -> DocumentRequest {
    DocumentRequest {
        path: path.to_string(),
        content: content.to_string(),
        metadata: None,
    }
}

fn req_meta(path: &str, content: &str, meta: Vec<(&str, &str)>) -> DocumentRequest {
    DocumentRequest {
        path: path.to_string(),
        content: content.to_string(),
        metadata: Some(
            meta.into_iter()
                .map(|(k, v)| (k.to_string(), v.to_string()))
                .collect(),
        ),
    }
}

#[test]
fn scenario_fulltext_semantic_hybrid() {
    let mut e = MemoryLocalSearchEngine::new();
    e.insert_document(req("a", "the quick fox"), 100).unwrap();
    e.insert_document(req("b", "the lazy dog"), 101).unwrap();

    let ft = e.search("fox", SearchType::FullText).unwrap();
    assert_eq!(ft.len(), 1);
    assert_eq!(ft[0].path, "a");
    assert!(ft[0].fts_score.is_some());
    assert!(ft[0].semantic_score.is_none());

    let sem = e.search("fox", SearchType::Semantic).unwrap();
    assert_eq!(sem.len(), 2);
    for r in &sem {
        assert!(r.fts_score.is_none());
        assert!(r.semantic_score.is_some());
    }
    let mut sem_paths: Vec<String> = sem.iter().map(|r| r.path.clone()).collect();
    sem_paths.sort();
    assert_eq!(sem_paths, vec!["a".to_string(), "b".to_string()]);

    let hy = e.search("fox", SearchType::Hybrid).unwrap();
    assert_eq!(hy.len(), 2);
    let a = hy.iter().find(|r| r.path == "a").unwrap();
    let b = hy.iter().find(|r| r.path == "b").unwrap();
    assert!(a.fts_score.is_some());
    assert!(a.semantic_score.is_some());
    assert!(b.fts_score.is_none());
    assert!(b.semantic_score.is_some());
}

#[test]
fn ranking_order_nonincreasing() {
    let mut e = MemoryLocalSearchEngine::new();
    e.insert_document(req("a", "fox fox fox jumps"), 1).unwrap();
    e.insert_document(req("b", "fox jumps"), 2).unwrap();
    e.insert_document(req("c", "fox fox jumps high"), 3).unwrap();
    for mode in [SearchType::FullText, SearchType::Semantic, SearchType::Hybrid] {
        let rs = e.search("fox jumps", mode).unwrap();
        for w in rs.windows(2) {
            assert!(w[0].final_score >= w[1].final_score);
        }
    }
}

#[test]
fn fulltext_requires_all_terms() {
    let mut e = MemoryLocalSearchEngine::new();
    e.insert_document(req("a", "alpha beta"), 1).unwrap();
    e.insert_document(req("b", "alpha gamma"), 2).unwrap();
    let rs = e.search("alpha beta", SearchType::FullText).unwrap();
    assert_eq!(rs.len(), 1);
    assert_eq!(rs[0].path, "a");
}

#[test]
fn fulltext_score_counts_occurrences() {
    let mut e = MemoryLocalSearchEngine::new();
    e.insert_document(req("a", "fox fox fox"), 1).unwrap();
    let rs = e.search("fox", SearchType::FullText).unwrap();
    assert_eq!(rs[0].fts_score, Some(3));
    assert_eq!(rs[0].final_score, 3);
}

#[test]
fn insert_existing_fails() {
    let mut e = MemoryLocalSearchEngine::new();
    e.insert_document(req("p", "one"), 1).unwrap();
    let r = e.insert_document(req("p", "two"), 2);
    assert_eq!(r, Err(SearchError::AlreadyExists));
    assert_eq!(e.stats(), 1);
}

#[test]
fn idempotent_delete_of_absent_path() {
    let mut e = MemoryLocalSearchEngine::new();
    let r1 = e.delete_document("ghost");
    let r2 = e.delete_document("ghost");
    assert_eq!(r1, Ok(()));
    assert_eq!(r2, Ok(()));
    assert_eq!(e.stats(), 0);
}

#[test]
fn delete_removes_from_all_indexes() {
    let mut e = MemoryLocalSearchEngine::new();
    e.insert_document(req("p", "findable text"), 1).unwrap();
    assert_eq!(e.stats(), 1);
    e.delete_document("p").unwrap();
    assert_eq!(e.stats(), 0);
    assert!(e.search("findable", SearchType::FullText).unwrap().is_empty());
    assert!(e.search("findable", SearchType::Semantic).unwrap().is_empty());
    let r = e.delete_document("p");
    assert_eq!(r, Ok(()));
}

#[test]
fn upsert_keeps_created_at_and_refreshes_updated_at() {
    let mut e = MemoryLocalSearchEngine::new();
    e.upsert_document(req("p", "first version"), 100).unwrap();
    e.upsert_document(req("p", "second version"), 200).unwrap();
    assert_eq!(e.stats(), 1);
    let rs = e.search("second", SearchType::FullText).unwrap();
    assert_eq!(rs.len(), 1);
    assert_eq!(rs[0].created_at, 100);
    assert_eq!(rs[0].updated_at, 200);
    assert!(e.search("first", SearchType::FullText).unwrap().is_empty());
}

#[test]
fn upsert_falls_back_to_insert() {
    let mut e = MemoryLocalSearchEngine::new();
    e.upsert_document(req("p", "fresh content"), 42).unwrap();
    assert_eq!(e.stats(), 1);
    let rs = e.search("fresh", SearchType::FullText).unwrap();
    assert_eq!(rs[0].created_at, 42);
    assert_eq!(rs[0].updated_at, 42);
}

#[test]
fn metadata_round_trip() {
    let mut e = MemoryLocalSearchEngine::new();
    e.insert_document(req_meta("p", "has metadata", vec![("k1", "v1"), ("k2", "v2")]), 1)
        .unwrap();
    let rs = e.search("metadata", SearchType::FullText).unwrap();
    let meta = rs[0].metadata.as_ref().unwrap();
    assert_eq!(meta.len(), 2);
    assert_eq!(meta[0], ("k1".to_string(), "v1".to_string()));
    assert_eq!(meta[1], ("k2".to_string(), "v2".to_string()));
}

#[test]
fn absent_metadata_stays_absent() {
    let mut e = MemoryLocalSearchEngine::new();
    e.insert_document(req("p", "no metadata"), 1).unwrap();
    let rs = e.search("metadata", SearchType::FullText).unwrap();
    assert!(rs[0].metadata.is_none());
}

#[test]
fn refresh_is_observable_noop() {
    let mut e = MemoryLocalSearchEngine::new();
    e.insert_document(req("p", "standing data"), 1).unwrap();
    e.refresh().unwrap();
    assert_eq!(e.stats(), 1);
    assert_eq!(e.search("standing", SearchType::FullText).unwrap().len(), 1);
}

#[test]
fn empty_query_matches_nothing() {
    let mut e = MemoryLocalSearchEngine::new();
    e.insert_document(req("p", "some text"), 1).unwrap();
    assert!(e.search("", SearchType::FullText).unwrap().is_empty());
    assert!(e.search("...", SearchType::FullText).unwrap().is_empty());
}

#[test]
fn hybrid_scores_stay_in_unit_range() {
    let mut e = MemoryLocalSearchEngine::new();
    e.insert_document(req("a", "fox fox"), 1).unwrap();
    e.insert_document(req("b", "fox"), 2).unwrap();
    e.insert_document(req("c", "unrelated words"), 3).unwrap();
    let rs = e.search("fox", SearchType::Hybrid).unwrap();
    assert_eq!(rs.len(), 3);
    for r in &rs {
        assert!(r.final_score <= 1_000_000);
        if let Some(f) = r.fts_score {
            assert!(f <= 1_000_000);
        }
        if let Some(s) = r.semantic_score {
            assert!(s <= 1_000_000);
        }
    }
}

#[test]
fn search_is_case_insensitive() {
    let mut e = MemoryLocalSearchEngine::new();
    e.insert_document(req("p", "The Quick FOX"), 1).unwrap();
    let rs = e.search("fox", SearchType::FullText).unwrap();
    assert_eq!(rs.len(), 1);
    let rs2 = e.search("QUICK", SearchType::FullText).unwrap();
    assert_eq!(rs2.len(), 1);
}

#[test]
fn error_messages() {
    assert_eq!(SearchError::StorageUnavailable.message(), "storage unavailable");
    assert_eq!(SearchError::NotFound.message(), "not found");
    assert_eq!(SearchError::AlreadyExists.message(), "already exists");
    assert_eq!(SearchError::SerializationError.message(), "serialization error");
    assert_eq!(SearchError::EmbeddingError.message(), "embedding error");
    assert_eq!(SearchError::DimensionMismatch.message(), "dimension mismatch");
    assert_eq!(SearchError::PartialWriteFailure.message(), "partial write failure");
}

#[test]
fn empty_content_is_stored_but_unsearchable_by_text() {
    let mut e = MemoryLocalSearchEngine::new();
    e.insert_document(req("p", ""), 1).unwrap();
    assert_eq!(e.stats(), 1);
    assert!(e.search("anything", SearchType::FullText).unwrap().is_empty());
    let sem = e.search("anything", SearchType::Semantic).unwrap();
    assert_eq!(sem.len(), 1);
    assert_eq!(sem[0].path, "p");
}

#[test]
fn hybrid_on_empty_engine_is_empty() {
    let e = MemoryLocalSearchEngine::new();
    assert!(e.search("fox", SearchType::Hybrid).unwrap().is_empty());
}
