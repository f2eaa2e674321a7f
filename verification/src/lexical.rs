//! The lexical index: tokenized full-text search with a relevance score
//! per match.  Each entry keeps the path and the indexed content; a
//! query matches an entry when every query token occurs among the
//! entry's tokens, and entries are returned sorted by non-increasing
//! relevance.  Ties are ordered arbitrarily.

use vstd::prelude::*;
use crate::ranker::{sort_by_score_desc, sorted_desc_by};
use crate::table::Table;
use crate::text::{
    doc_matches, fts_score, matches_query, score_query, tokenize, tokens_of_text, views_of,
};
use crate::types::{ScoredPath, SCORE_CAP};

verus! {

/// Whether the indexed content at `p` matches the query tokens.
pub open spec fn entry_matches(
    m: Map<Seq<char>, Seq<char>>,
    p: Seq<char>,
    q_toks: Seq<Seq<u8>>,
) -> bool {
    m.contains_key(p) && doc_matches(tokens_of_text(m[p]), q_toks)
}

/// Whether some result entry carries `p`.
pub open spec fn has_path(s: Seq<ScoredPath>, p: Seq<char>) -> bool {
    exists|k: int| 0 <= k < s.len() && s[k].path@ == p
}

/// Whether some row among the first `n` carries `p` and matches.
pub open spec fn prefix_match(
    rows: Seq<(Seq<char>, Seq<char>)>,
    n: int,
    p: Seq<char>,
    qt: Seq<Seq<u8>>,
) -> bool {
    exists|k: int|
        0 <= k < n && rows[k].0 == p && doc_matches(tokens_of_text(rows[k].1), qt)
}

/// The lexical index.
pub struct LexicalIndex {
    table: Table<String>,
}

impl View for LexicalIndex {
    type V = Map<Seq<char>, Seq<char>>;

    closed spec fn view(&self) -> Map<Seq<char>, Seq<char>> {
        self.table@
    }
}

impl LexicalIndex {
    /// Paths are unique.
    pub closed spec fn wf(&self) -> bool {
        self.table.wf()
    }

    /// An empty index.
    pub fn new() -> (s: Self)
        ensures
            s@ =~= Map::<Seq<char>, Seq<char>>::empty(),
            s.wf(),
    {
        LexicalIndex { table: Table::new() }
    }

    /// Adds content to the searchable index under `path`.
    pub fn index(&mut self, path: String, content: String)
        requires
            old(self).wf(),
        ensures
            final(self).wf(),
            final(self)@ =~= old(self)@.insert(path@, content@),
    {
        self.table.set(path, content);
    }

    /// Replaces previously indexed content for `path`.
    pub fn reindex(&mut self, path: String, content: String)
        requires
            old(self).wf(),
        ensures
            final(self).wf(),
            final(self)@ =~= old(self)@.insert(path@, content@),
    {
        self.index(path, content);
    }

    /// Deletes the indexed content for `path`; nothing happens when none
    /// is there.
    pub fn remove(&mut self, path: &String) -> (was: bool)
        requires
            old(self).wf(),
        ensures
            final(self).wf(),
            final(self)@ =~= old(self)@.remove(path@),
            was == old(self)@.contains_key(path@),
    {
        self.table.remove(path)
    }

    /// Returns every entry matching the query, scored by relevance and
    /// sorted by non-increasing score.  A query without tokens matches
    /// nothing.
    pub fn search(&self, query: &str) -> (r: Vec<ScoredPath>)
        requires
            self.wf(),
        ensures
            sorted_desc_by(r@),
            forall|i: int, j: int| 0 <= i < j < r@.len() ==> r@[i].path@ != r@[j].path@,
            forall|p: Seq<char>|
                (exists|i: int| 0 <= i < r@.len() && r@[i].path@ == p) <==> entry_matches(
                    self@,
                    p,
                    tokens_of_text(query@),
                ),
            forall|i: int|
                0 <= i < r@.len() ==> self@.contains_key(r@[i].path@) && r@[i].score
                    == fts_score(
                    tokens_of_text(self@[r@[i].path@]),
                    tokens_of_text(query@),
                ) && 1 <= r@[i].score <= SCORE_CAP,
    {
        let qb = query.as_bytes_vec();
        let q_toks = tokenize(&qb);
        let ghost qt = tokens_of_text(query@);
        proof {
            assert(views_of(q_toks@) == qt);
        }
        let n = self.table.nrows();
        let mut out: Vec<ScoredPath> = Vec::new();
        let mut i: usize = 0;
        while i < n
            invariant
                self.wf(),
                qt == tokens_of_text(query@),
                views_of(q_toks@) == qt,
                n == self.table.row_seq().len(),
                0 <= i <= n,
                forall|a: int, b: int|
                    0 <= a < b < out@.len() ==> out@[a].path@ != out@[b].path@,
                forall|p: Seq<char>| #[trigger] has_path(out@, p) <==> prefix_match(
                    self.table.row_seq(),
                    i as int,
                    p,
                    qt,
                ),
                forall|k: int|
                    0 <= k < out@.len() ==> self@.contains_key(out@[k].path@)
                        && out@[k].score == fts_score(
                        tokens_of_text(self@[out@[k].path@]),
                        qt,
                    ) && 1 <= out@[k].score <= SCORE_CAP,
            decreases n - i,
        {
            proof {
                self.table.lemma_row_in_map(i as int);
            }
            let content = self.table.val_at(i);
            let cb = content.as_str().as_bytes_vec();
            let d_toks = tokenize(&cb);
            proof {
                assert(views_of(d_toks@) == tokens_of_text(
                    self.table.row_seq()[i as int].1,
                ));
            }
            let ghost out0 = out@;
            if matches_query(&d_toks, &q_toks) {
                let s = score_query(&d_toks, &q_toks);
                proof {
                    crate::text::lemma_match_score_pos(views_of(d_toks@), qt);
                }
                let p = self.table.path_at(i);
                out.push(ScoredPath { path: p.clone(), score: s });
                proof {
                    assert(forall|k: int| 0 <= k < out0.len() ==> out@[k] == out0[k]);
                    assert(out@[out0.len() as int].path@ == self.table.row_seq()[
                        i as int].0);
                    assert forall|a: int, b: int|
                        0 <= a < b < out@.len() implies out@[a].path@ != out@[b].path@ by {
                        if b == out0.len() {
                            assert(out@[a] == out0[a]);
                            assert(has_path(out0, out0[a].path@));
                            assert(prefix_match(
                                self.table.row_seq(),
                                i as int,
                                out0[a].path@,
                                qt,
                            ));
                            let k = choose|k: int|
                                0 <= k < i && self.table.row_seq()[k].0 == out0[a].path@
                                    && doc_matches(
                                    tokens_of_text(self.table.row_seq()[k].1),
                                    qt,
                                );
                            assert(self.table.row_seq()[k].0 != self.table.row_seq()[
                            i as int].0);
                        }
                    }
                }
            }
            proof {
                assert forall|p: Seq<char>| #[trigger] has_path(out@, p) <==> prefix_match(
                    self.table.row_seq(),
                    i + 1,
                    p,
                    qt,
                ) by {
                    if has_path(out@, p) {
                        let k = choose|k: int|
                            0 <= k < out@.len() && out@[k].path@ == p;
                        if k < out0.len() {
                            assert(out0[k].path@ == p);
                            assert(has_path(out0, p));
                            assert(prefix_match(self.table.row_seq(), i as int, p, qt));
                        } else {
                            assert(p == self.table.row_seq()[i as int].0);
                            assert(doc_matches(
                                tokens_of_text(self.table.row_seq()[i as int].1),
                                qt,
                            ));
                        }
                    }
                    if prefix_match(self.table.row_seq(), i + 1, p, qt) {
                        let k = choose|k: int|
                            0 <= k < i + 1 && self.table.row_seq()[k].0 == p
                                && doc_matches(
                                tokens_of_text(self.table.row_seq()[k].1),
                                qt,
                            );
                        if k < i {
                            assert(prefix_match(self.table.row_seq(), i as int, p, qt));
                            assert(has_path(out0, p));
                            let k2 = choose|k2: int|
                                0 <= k2 < out0.len() && out0[k2].path@ == p;
                            assert(out@[k2].path@ == p);
                        } else {
                            assert(doc_matches(
                                tokens_of_text(self.table.row_seq()[i as int].1),
                                qt,
                            ));
                            assert(out@.len() > out0.len());
                            assert(out@[out@.len() - 1].path@ == p);
                        }
                    }
                }
            }
            i = i + 1;
        }
        let r = sort_by_score_desc(out);
        proof {
            assert forall|p: Seq<char>| ((exists|k: int|
                0 <= k < r@.len() && r@[k].path@ == p) <==> #[trigger] entry_matches(
                self@,
                p,
                qt,
            )) by {
                self.table.lemma_map_covered(p);
                if exists|k: int| 0 <= k < r@.len() && r@[k].path@ == p {
                    let k = choose|k: int| 0 <= k < r@.len() && r@[k].path@ == p;
                    assert(r@.contains(r@[k]));
                    assert(out@.contains(r@[k]));
                    let k2 = choose|k2: int| 0 <= k2 < out@.len() && out@[k2] == r@[k];
                    assert(out@[k2].path@ == p);
                    assert(has_path(out@, p));
                    assert(prefix_match(self.table.row_seq(), n as int, p, qt));
                    let k3 = choose|k3: int|
                        0 <= k3 < n && self.table.row_seq()[k3].0 == p && doc_matches(
                            tokens_of_text(self.table.row_seq()[k3].1),
                            qt,
                        );
                    self.table.lemma_row_in_map(k3);
                }
                if entry_matches(self@, p, qt) {
                    let k3 = choose|k3: int|
                        0 <= k3 < self.table.row_seq().len() && self.table.row_seq()[k3].0
                            == p;
                    self.table.lemma_row_in_map(k3);
                    assert(doc_matches(
                        tokens_of_text(self.table.row_seq()[k3].1),
                        qt,
                    ));
                    assert(prefix_match(self.table.row_seq(), n as int, p, qt));
                    assert(has_path(out@, p));
                    let k2 = choose|k2: int|
                        0 <= k2 < out@.len() && out@[k2].path@ == p;
                    assert(out@.contains(out@[k2]));
                    assert(r@.contains(out@[k2]));
                    let k = choose|k: int| 0 <= k < r@.len() && r@[k] == out@[k2];
                    assert(r@[k].path@ == p);
                }
            }
            assert forall|k: int| 0 <= k < r@.len() implies self@.contains_key(r@[k].path@)
                && r@[k].score == fts_score(tokens_of_text(self@[r@[k].path@]), qt) && 1
                <= r@[k].score <= SCORE_CAP by {
                assert(r@.contains(r@[k]));
                assert(out@.contains(r@[k]));
                let k2 = choose|k2: int| 0 <= k2 < out@.len() && out@[k2] == r@[k];
                assert(out@[k2].score == fts_score(
                    tokens_of_text(self@[out@[k2].path@]),
                    qt,
                ));
            }
            assert forall|a: int, b: int|
                0 <= a < b < r@.len() implies r@[a].path@ != r@[b].path@ by {
                if r@[a].path@ == r@[b].path@ {
                    assert(out@.no_duplicates()) by {
                        assert forall|x: int, y: int|
                            (0 <= x < out@.len() && 0 <= y < out@.len() && x != y) implies
                            out@[x] != out@[y] by {
                            if x < y {
                                assert(out@[x].path@ != out@[y].path@);
                            } else {
                                assert(out@[y].path@ != out@[x].path@);
                            }
                        }
                    }
                    out@.lemma_multiset_has_no_duplicates();
                    r@.lemma_multiset_has_no_duplicates_conv();
                    assert(r@[a] != r@[b]);
                    assert(out@.contains(r@[a]) && out@.contains(r@[b]));
                    let x = choose|x: int| 0 <= x < out@.len() && out@[x] == r@[a];
                    let y = choose|y: int| 0 <= y < out@.len() && out@[y] == r@[b];
                    assert(x != y);
                    if x < y {
                        assert(out@[x].path@ != out@[y].path@);
                    } else {
                        assert(out@[y].path@ != out@[x].path@);
                    }
                    assert(false);
                }
            }
        }
        r
    }
}

} // verus!
