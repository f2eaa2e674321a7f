use local_search_engine::embed::{embedding_from_bytes, embedding_to_bytes, LocalEmbedder};
use local_search_engine::ingest::JsonFileIngestor;
use local_search_engine::engine::MemoryLocalSearchEngine;
use local_search_engine::text::{count_occurrences, matches_query, score_query, tokenize};
use local_search_engine::types::{DocumentRequest, SearchType};
use local_search_engine::vector_store::{cosine_similarity, VectorStore};
use local_search_engine::types::SearchError;

fn toks(s: &str) -> Vec<Vec<u8>> {
    tokenize(&s.as_bytes().to_vec())
}

#[test]
fn tokenizer_splits_and_lowercases() {
    let t = toks("The quick-Fox! 42");
    let expected: Vec<Vec<u8>> = vec![
        b"the".to_vec(),
        b"quick".to_vec(),
        b"fox".to_vec(),
        b"42".to_vec(),
    ];
    assert_eq!(t, expected);
}

#[test]
fn tokenizer_empty_and_punctuation() {
    assert!(toks("").is_empty());
    assert!(toks("...!?").is_empty());
    assert_eq!(toks("a"), vec![b"a".to_vec()]);
}

#[test]
fn counting_and_matching() {
    let d = toks("fox fox dog");
    assert_eq!(count_occurrences(&d, &b"fox".to_vec()), 2);
    assert_eq!(count_occurrences(&d, &b"dog".to_vec()), 1);
    assert_eq!(count_occurrences(&d, &b"cat".to_vec()), 0);
    assert!(matches_query(&d, &toks("fox dog")));
    assert!(!matches_query(&d, &toks("fox cat")));
    assert!(!matches_query(&d, &toks("")));
    assert_eq!(score_query(&d, &toks("fox dog")), 3);
}

#[test]
fn embedder_is_deterministic_with_fixed_shape() {
    let e = LocalEmbedder::new();
    let v1 = e.embed_text("some text");
    let v2 = e.embed_text("some text");
    let v3 = e.embed_text("other text");
    assert_eq!(v1, v2);
    assert_eq!(v1.len(), 8);
    assert!(v1.iter().all(|&c| c < 350_001));
    assert_ne!(v1, v3);
}

#[test]
fn cosine_similarity_dot_product() {
    let a = vec![1_000u64, 0, 0, 0, 0, 0, 0, 0];
    let b = vec![2_000u64, 0, 0, 0, 0, 0, 0, 0];
    assert_eq!(cosine_similarity(&a, &b), 1_000 * 2_000 / 1_000_000);
    let short = vec![1_000u64];
    assert_eq!(cosine_similarity(&short, &b), 0);
}

#[test]
fn vector_store_rejects_wrong_dimension() {
    let mut s = VectorStore::new();
    let bad = vec![1u64, 2, 3];
    assert_eq!(
        s.put("p".to_string(), bad),
        Err(SearchError::DimensionMismatch)
    );
    let good = vec![1u64, 2, 3, 4, 5, 6, 7, 8];
    assert_eq!(s.put("p".to_string(), good), Ok(()));
}

#[test]
fn ingestor_processes_all_records() {
    let engine = MemoryLocalSearchEngine::new();
    let mut ing = JsonFileIngestor::new(engine);
    let records = vec![
        DocumentRequest {
            path: "a".to_string(),
            content: "first record".to_string(),
            metadata: None,
        },
        DocumentRequest {
            path: "b".to_string(),
            content: "second record".to_string(),
            metadata: None,
        },
    ];
    assert_eq!(ing.ingest_records(&records, 7), Ok(2));
    assert_eq!(ing.indexer.stats(), 2);
    let rs = ing.indexer.search("record", SearchType::FullText).unwrap();
    assert_eq!(rs.len(), 2);
}

#[test]
fn embedding_bytes_round_trip() {
    let v: Vec<u64> = vec![0, 1, 0x0102030405060708, u64::MAX, 350_000];
    let bytes = embedding_to_bytes(&v);
    assert_eq!(bytes.len(), 40);
    assert_eq!(&bytes[16..24], &[8, 7, 6, 5, 4, 3, 2, 1]);
    assert_eq!(embedding_from_bytes(&bytes), v);
}

#[test]
fn embedding_bytes_ignore_trailing() {
    let mut bytes = vec![1u8, 0, 0, 0, 0, 0, 0, 0];
    bytes.push(9);
    assert_eq!(embedding_from_bytes(&bytes), vec![1u64]);
}
