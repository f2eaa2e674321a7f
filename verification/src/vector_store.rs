//! The vector store: one fixed-length embedding per document path,
//! queried by exhaustive comparison.
//!
//! Similarity is the fixed-point dot product of the two vectors, which
//! stands for cosine similarity of unit-normalized embeddings.  A query
//! against a vector of a different length scores zero.  Queries scan
//! every stored vector, which bounds the scale this design targets.

use vstd::prelude::*;
use crate::ranker::sort_by_score_desc;
use crate::table::Table;
use crate::types::{ScoredPath, SearchError, EMBED_DIM, EMBED_MOD, SCALE};

verus! {

/// The dot product of two equal-length component sequences.
pub open spec fn dot(a: Seq<u64>, b: Seq<u64>) -> int
    decreases a.len(),
{
    if a.len() == 0 || b.len() == 0 {
        0
    } else {
        a.last() * b.last() + dot(a.drop_last(), b.drop_last())
    }
}

/// The similarity of a query vector and a stored vector: their dot
/// product scaled back into fixed point, or zero when lengths differ.
pub open spec fn sim_spec(q: Seq<u64>, v: Seq<u64>) -> u64 {
    if q.len() != v.len() {
        0
    } else {
        (dot(q, v) / (SCALE as int)) as u64
    }
}

/// Bounds on a dot product of component-bounded vectors.
pub proof fn lemma_dot_bounds(a: Seq<u64>, b: Seq<u64>)
    requires
        a.len() == b.len(),
        forall|i: int| 0 <= i < a.len() ==> a[i] < EMBED_MOD,
        forall|i: int| 0 <= i < b.len() ==> b[i] < EMBED_MOD,
    ensures
        0 <= dot(a, b),
        dot(a, b) <= a.len() * 122_500_000_000,
    decreases a.len(),
{
    if a.len() > 0 {
        assert(forall|i: int|
            0 <= i < a.len() - 1 ==> a.drop_last()[i] == a[i] && b.drop_last()[i] == b[i]);
        lemma_dot_bounds(a.drop_last(), b.drop_last());
        assert(a.last() * b.last() <= 122_500_000_000 && 0 <= a.last()
            * b.last()) by (nonlinear_arith)
            requires
                0 <= a.last() < EMBED_MOD,
                0 <= b.last() < EMBED_MOD,
                EMBED_MOD == 350_001,
        ;
        assert((a.len() - 1) * 122_500_000_000 + 122_500_000_000 == a.len()
            * 122_500_000_000) by (nonlinear_arith);
    }
}

/// A similarity within the embedding dimension stays within the unit
/// fixed-point range.
pub proof fn lemma_sim_bound(q: Seq<u64>, v: Seq<u64>)
    requires
        q.len() <= EMBED_DIM,
        forall|i: int| 0 <= i < q.len() ==> q[i] < EMBED_MOD,
        forall|i: int| 0 <= i < v.len() ==> v[i] < EMBED_MOD,
    ensures
        sim_spec(q, v) <= SCALE,
{
    if q.len() == v.len() {
        lemma_dot_bounds(q, v);
        assert(q.len() * 122_500_000_000 <= 980_000_000_000) by (nonlinear_arith)
            requires
                0 <= q.len() <= 8,
        ;
        vstd::arithmetic::div_mod::lemma_div_is_ordered(
            dot(q, v),
            980_000_000_000,
            SCALE as int,
        );
        assert(980_000_000_000int / (SCALE as int) == 980_000);
    }
}

/// Computes the similarity of two vectors.  This is a valid cosine
/// similarity only when the components stand for unit-normalized
/// embeddings; the store performs no normalization of its own.
pub fn cosine_similarity(a: &Vec<u64>, b: &Vec<u64>) -> (r: u64)
    requires
        a@.len() <= EMBED_DIM,
        forall|i: int| 0 <= i < a@.len() ==> a@[i] < EMBED_MOD,
        forall|i: int| 0 <= i < b@.len() ==> b@[i] < EMBED_MOD,
    ensures
        r == sim_spec(a@, b@),
        r <= SCALE,
{
    proof {
        lemma_sim_bound(a@, b@);
    }
    if a.len() != b.len() {
        return 0;
    }
    let mut sum: u64 = 0;
    let mut i: usize = 0;
    proof {
        assert(a@.subrange(0, 0) =~= Seq::<u64>::empty());
        assert(b@.subrange(0, 0) =~= Seq::<u64>::empty());
    }
    while i < a.len()
        invariant
            a@.len() == b@.len(),
            a@.len() <= EMBED_DIM,
            0 <= i <= a@.len(),
            forall|k: int| 0 <= k < a@.len() ==> a@[k] < EMBED_MOD,
            forall|k: int| 0 <= k < b@.len() ==> b@[k] < EMBED_MOD,
            sum == dot(a@.subrange(0, i as int), b@.subrange(0, i as int)),
            sum <= i * 122_500_000_000,
        decreases a@.len() - i,
    {
        proof {
            assert(a@.subrange(0, i + 1).drop_last() =~= a@.subrange(0, i as int));
            assert(b@.subrange(0, i + 1).drop_last() =~= b@.subrange(0, i as int));
            assert(a@.subrange(0, i + 1).last() == a@[i as int]);
            assert(b@.subrange(0, i + 1).last() == b@[i as int]);
            assert(a@[i as int] * b@[i as int] <= 122_500_000_000 && 0 <= a@[i as int]
                * b@[i as int]) by (nonlinear_arith)
                requires
                    0 <= a@[i as int] < EMBED_MOD,
                    0 <= b@[i as int] < EMBED_MOD,
                    EMBED_MOD == 350_001,
            ;
            assert(i * 122_500_000_000 + 122_500_000_000 == (i + 1)
                * 122_500_000_000) by (nonlinear_arith);
            assert((i + 1) * 122_500_000_000 <= 980_000_000_000) by (nonlinear_arith)
                requires
                    i + 1 <= 8,
            ;
        }
        sum = sum + a[i] * b[i];
        i = i + 1;
    }
    proof {
        assert(a@.subrange(0, a@.len() as int) =~= a@);
        assert(b@.subrange(0, b@.len() as int) =~= b@);
    }
    sum / SCALE
}

/// Whether a stored vector is acceptable: the embedding dimension, with
/// every component in the fixed-point range.
pub open spec fn vec_ok(v: Seq<u64>) -> bool {
    v.len() == EMBED_DIM && forall|i: int| 0 <= i < v.len() ==> v[i] < EMBED_MOD
}

/// The vector store: one embedding per path.
pub struct VectorStore {
    table: Table<Vec<u64>>,
}

impl View for VectorStore {
    type V = Map<Seq<char>, Seq<u64>>;

    closed spec fn view(&self) -> Map<Seq<char>, Seq<u64>> {
        self.table@
    }
}

impl VectorStore {
    /// Paths are unique and every stored vector has the embedding
    /// dimension with components in the fixed-point range.
    pub open spec fn wf(&self) -> bool {
        &&& self.inv()
        &&& forall|p: Seq<char>| self@.contains_key(p) ==> vec_ok(#[trigger] self@[p])
    }

    /// The table invariant.
    pub closed spec fn inv(&self) -> bool {
        self.table.wf()
    }

    /// An empty store.
    pub fn new() -> (s: Self)
        ensures
            s@ =~= Map::<Seq<char>, Seq<u64>>::empty(),
            s.wf(),
    {
        VectorStore { table: Table::new() }
    }

    /// Inserts or replaces the vector for `path`.  A vector of the wrong
    /// length is rejected with `DimensionMismatch`.
    pub fn put(&mut self, path: String, v: Vec<u64>) -> (r: Result<(), SearchError>)
        requires
            old(self).wf(),
            forall|i: int| 0 <= i < v@.len() ==> v@[i] < EMBED_MOD,
        ensures
            final(self).wf(),
            match r {
                Ok(()) => v@.len() == EMBED_DIM && final(self)@ =~= old(self)@.insert(
                    path@,
                    v@,
                ),
                Err(e) => e == SearchError::DimensionMismatch && v@.len() != EMBED_DIM
                    && final(self)@ == old(self)@,
            },
    {
        if v.len() != EMBED_DIM {
            return Err(SearchError::DimensionMismatch);
        }
        let ghost m0 = self@;
        let ghost vv = v@;
        let ghost pp = path@;
        self.table.set(path, v);
        proof {
            assert forall|p: Seq<char>| self@.contains_key(p) implies vec_ok(
                #[trigger] self@[p],
            ) by {
                if p == pp {
                    assert(self@[p] == vv);
                } else {
                    assert(self@[p] == m0[p] && m0.contains_key(p));
                }
            }
        }
        Ok(())
    }

    /// Removes the vector for `path`; nothing happens when none is there.
    pub fn delete(&mut self, path: &String) -> (was: bool)
        requires
            old(self).wf(),
        ensures
            final(self).wf(),
            final(self)@ =~= old(self)@.remove(path@),
            was == old(self)@.contains_key(path@),
    {
        let ghost m0 = self@;
        let was = self.table.remove(path);
        proof {
            assert forall|p: Seq<char>| self@.contains_key(p) implies vec_ok(
                #[trigger] self@[p],
            ) by {
                assert(self@[p] == m0[p] && m0.contains_key(p));
            }
        }
        was
    }

    /// Scores every stored vector against `q` and returns all entries
    /// sorted by non-increasing similarity.  Ties are ordered
    /// arbitrarily.
    pub fn search_by_vector(&self, q: &Vec<u64>) -> (r: Vec<ScoredPath>)
        requires
            self.wf(),
            q@.len() <= EMBED_DIM,
            forall|i: int| 0 <= i < q@.len() ==> q@[i] < EMBED_MOD,
        ensures
            crate::ranker::sorted_desc_by(r@),
            forall|i: int, j: int| 0 <= i < j < r@.len() ==> r@[i].path@ != r@[j].path@,
            forall|p: Seq<char>|
                (exists|i: int| 0 <= i < r@.len() && r@[i].path@ == p) <==> self@.contains_key(
                    p,
                ),
            forall|i: int|
                0 <= i < r@.len() ==> self@.contains_key(r@[i].path@) && r@[i].score
                    == sim_spec(q@, self@[r@[i].path@]) && r@[i].score <= SCALE,
    {
        let n = self.table.nrows();
        let mut out: Vec<ScoredPath> = Vec::new();
        let mut i: usize = 0;
        while i < n
            invariant
                self.wf(),
                q@.len() <= EMBED_DIM,
                forall|k: int| 0 <= k < q@.len() ==> q@[k] < EMBED_MOD,
                n == self.table.row_seq().len(),
                0 <= i <= n,
                out@.len() == i,
                forall|k: int| 0 <= k < i ==> out@[k].path@ == self.table.row_seq()[k].0,
                forall|k: int|
                    0 <= k < i ==> self@.contains_key(out@[k].path@) && out@[k].score
                        == sim_spec(q@, self@[out@[k].path@]) && out@[k].score <= SCALE,
            decreases n - i,
        {
            proof {
                self.table.lemma_row_in_map(i as int);
                assert(self@.contains_key(self.table.row_seq()[i as int].0));
                assert(vec_ok(self@[self.table.row_seq()[i as int].0]));
            }
            let p = self.table.path_at(i);
            let v = self.table.val_at(i);
            let s = cosine_similarity(q, v);
            out.push(ScoredPath { path: p.clone(), score: s });
            i = i + 1;
        }
        let r = sort_by_score_desc(out);
        proof {
            assert forall|p: Seq<char>| ((exists|k: int|
                0 <= k < r@.len() && r@[k].path@ == p) <==> self@.contains_key(p)) by {
                self.table.lemma_map_covered(p);
                if exists|k: int| 0 <= k < r@.len() && r@[k].path@ == p {
                    let k = choose|k: int| 0 <= k < r@.len() && r@[k].path@ == p;
                    assert(r@.contains(r@[k]));
                    assert(out@.contains(r@[k]));
                    let k2 = choose|k2: int| 0 <= k2 < out@.len() && out@[k2] == r@[k];
                    assert(out@[k2].path@ == p);
                }
                if self@.contains_key(p) {
                    let k = choose|k: int|
                        0 <= k < self.table.row_seq().len() && self.table.row_seq()[k].0
                            == p;
                    assert(out@[k].path@ == p);
                    assert(out@.contains(out@[k]));
                    assert(r@.contains(out@[k]));
                    let k2 = choose|k2: int| 0 <= k2 < r@.len() && r@[k2] == out@[k];
                    assert(r@[k2].path@ == p);
                }
            }
            assert forall|k: int| 0 <= k < r@.len() implies self@.contains_key(r@[k].path@)
                && r@[k].score == sim_spec(q@, self@[r@[k].path@]) && r@[k].score
                <= SCALE by {
                assert(r@.contains(r@[k]));
                assert(out@.contains(r@[k]));
                let k2 = choose|k2: int| 0 <= k2 < out@.len() && out@[k2] == r@[k];
                assert(out@[k2].score == sim_spec(q@, self@[out@[k2].path@]));
            }
            assert forall|a: int, b: int|
                0 <= a < b < r@.len() implies r@[a].path@ != r@[b].path@ by {
                if r@[a].path@ == r@[b].path@ {
                    assert(out@.no_duplicates()) by {
                        assert forall|x: int, y: int|
                            (0 <= x < out@.len() && 0 <= y < out@.len() && x != y) implies
                            out@[x] != out@[y] by {
                            assert(out@[x].path@ == self.table.row_seq()[x].0);
                            assert(out@[y].path@ == self.table.row_seq()[y].0);
                            if x < y {
                                self.table.lemma_row_in_map(x);
                            } else {
                                self.table.lemma_row_in_map(y);
                            }
                        }
                    }
                    out@.lemma_multiset_has_no_duplicates();
                    r@.lemma_multiset_has_no_duplicates_conv();
                    assert(r@[a] != r@[b]);
                    assert(r@.contains(r@[a]) && r@.contains(r@[b]));
                    assert(out@.contains(r@[a]) && out@.contains(r@[b]));
                    let x = choose|x: int| 0 <= x < out@.len() && out@[x] == r@[a];
                    let y = choose|y: int| 0 <= y < out@.len() && out@[y] == r@[b];
                    assert(x != y);
                    assert(out@[x].path@ == self.table.row_seq()[x].0);
                    assert(out@[y].path@ == self.table.row_seq()[y].0);
                    if x < y {
                        self.table.lemma_row_in_map(x);
                    } else {
                        self.table.lemma_row_in_map(y);
                    }
                    assert(false);
                }
            }
        }
        r
    }
}

} // verus!
