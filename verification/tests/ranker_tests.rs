use local_search_engine::ranker::{
    fuse_scores, merge_and_fuse, normalize_scores, rank_hybrid, sort_by_score_desc,
};
use local_search_engine::types::ScoredPath;

fn sp(path: &str, score: u64) -> ScoredPath {
    ScoredPath { path: path.to_string(), score }
}

#[test]
fn fusion_weight_check() {
    assert_eq!(fuse_scores(1_000_000, 0), 600_000);
    assert_eq!(fuse_scores(0, 1_000_000), 400_000);
}

#[test]
fn fusion_of_full_components_is_full() {
    assert_eq!(fuse_scores(1_000_000, 1_000_000), 1_000_000);
    assert_eq!(fuse_scores(0, 0), 0);
    assert_eq!(fuse_scores(500_000, 500_000), 500_000);
}

#[test]
fn minmax_normalization_exact_values() {
    let v = vec![sp("a", 10), sp("b", 20), sp("c", 30)];
    let n = normalize_scores(&v);
    assert_eq!(n.len(), 3);
    assert_eq!(n[0].score, 0);
    assert_eq!(n[1].score, 500_000);
    assert_eq!(n[2].score, 1_000_000);
    assert_eq!(n[0].path, "a");
    assert_eq!(n[1].path, "b");
    assert_eq!(n[2].path, "c");
}

#[test]
fn minmax_degenerate_all_equal() {
    let v = vec![sp("a", 7), sp("b", 7), sp("c", 7)];
    let n = normalize_scores(&v);
    for e in &n {
        assert_eq!(e.score, 1_000_000);
    }
}

#[test]
fn minmax_single_element_is_full() {
    let v = vec![sp("only", 3)];
    let n = normalize_scores(&v);
    assert_eq!(n[0].score, 1_000_000);
}

#[test]
fn sort_descending() {
    let v = vec![sp("a", 5), sp("b", 30), sp("c", 10)];
    let s = sort_by_score_desc(v);
    assert_eq!(s.len(), 3);
    assert_eq!(s[0].path, "b");
    assert_eq!(s[1].path, "c");
    assert_eq!(s[2].path, "a");
}

#[test]
fn merge_unions_by_path() {
    let fts = vec![sp("a", 1_000_000), sp("b", 200_000)];
    let sem = vec![sp("b", 400_000), sp("c", 900_000)];
    let m = merge_and_fuse(&fts, &sem);
    assert_eq!(m.len(), 3);
    let a = m.iter().find(|e| e.path == "a").unwrap();
    assert_eq!(a.fts_score, Some(1_000_000));
    assert_eq!(a.semantic_score, None);
    assert_eq!(a.final_score, 600_000);
    let b = m.iter().find(|e| e.path == "b").unwrap();
    assert_eq!(b.fts_score, Some(200_000));
    assert_eq!(b.semantic_score, Some(400_000));
    assert_eq!(b.final_score, (6 * 200_000 + 4 * 400_000) / 10);
    let c = m.iter().find(|e| e.path == "c").unwrap();
    assert_eq!(c.fts_score, None);
    assert_eq!(c.semantic_score, Some(900_000));
    assert_eq!(c.final_score, 360_000);
}

#[test]
fn rank_hybrid_end_to_end() {
    let fts = vec![sp("a", 10)];
    let sem = vec![sp("a", 500_000), sp("b", 250_000)];
    let r = rank_hybrid(&fts, &sem);
    assert_eq!(r.len(), 2);
    assert_eq!(r[0].path, "a");
    assert_eq!(r[0].fts_score, Some(1_000_000));
    assert_eq!(r[0].semantic_score, Some(500_000));
    assert_eq!(r[0].final_score, 800_000);
    assert_eq!(r[1].path, "b");
    assert_eq!(r[1].fts_score, None);
    assert_eq!(r[1].semantic_score, Some(250_000));
    assert_eq!(r[1].final_score, 100_000);
}
