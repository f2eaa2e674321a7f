//! The hybrid ranker: min-max normalization of full-text scores, the
//! weighted fusion of the two component scores, and the descending sort
//! of a result list.
//!
//! Fusion weighs the normalized full-text score at 0.6 and the semantic
//! score at 0.4; a component missing for a path contributes zero.  Ties
//! are broken arbitrarily by the sort.

use vstd::prelude::*;
use crate::types::{
    RankedResult, ScoredPath, FTS_WEIGHT, SCALE, SCORE_CAP, SEM_WEIGHT, WEIGHT_DEN,
};
use vstd::arithmetic::div_mod::{lemma_div_is_ordered, lemma_div_by_multiple};
use vstd::arithmetic::mul::lemma_mul_inequality;
use vstd::multiset::Multiset;
use vstd::seq_lib::group_to_multiset_ensures;

verus! {

broadcast use group_to_multiset_ensures, vstd::multiset::group_multiset_axioms;

/// The path/score views of a list of scored paths.
pub open spec fn score_views(s: Seq<ScoredPath>) -> Seq<(Seq<char>, u64)> {
    s.map_values(|e: ScoredPath| (e.path@, e.score))
}

/// The scores of a list of scored paths.
pub open spec fn scores_of(s: Seq<ScoredPath>) -> Seq<u64> {
    s.map_values(|e: ScoredPath| e.score)
}

/// No two pairs share a path.
pub open spec fn pair_paths_distinct(s: Seq<(Seq<char>, u64)>) -> bool {
    forall|i: int, j: int| 0 <= i < j < s.len() ==> s[i].0 != s[j].0
}

/// The smallest value of a non-empty score sequence (zero when empty).
pub open spec fn seq_min(s: Seq<u64>) -> u64
    decreases s.len(),
{
    if s.len() == 0 {
        0
    } else if s.len() == 1 {
        s[0]
    } else if s.last() < seq_min(s.drop_last()) {
        s.last()
    } else {
        seq_min(s.drop_last())
    }
}

/// The largest value of a non-empty score sequence (zero when empty).
pub open spec fn seq_max(s: Seq<u64>) -> u64
    decreases s.len(),
{
    if s.len() == 0 {
        0
    } else if s.len() == 1 {
        s[0]
    } else if s.last() > seq_max(s.drop_last()) {
        s.last()
    } else {
        seq_max(s.drop_last())
    }
}

/// The minimum and maximum bound every element and are attained.
pub proof fn lemma_min_max(s: Seq<u64>)
    requires
        s.len() > 0,
    ensures
        forall|i: int| 0 <= i < s.len() ==> seq_min(s) <= s[i] && s[i] <= seq_max(s),
        s.contains(seq_min(s)),
        s.contains(seq_max(s)),
    decreases s.len(),
{
    if s.len() == 1 {
        assert(s[0] == s.last());
    } else {
        lemma_min_max(s.drop_last());
        assert(forall|i: int| 0 <= i < s.len() - 1 ==> s.drop_last()[i] == s[i]);
        assert(s.drop_last().contains(seq_min(s.drop_last())) ==> s.contains(
            seq_min(s.drop_last()),
        )) by {
            if s.drop_last().contains(seq_min(s.drop_last())) {
                let i = choose|i: int|
                    0 <= i < s.drop_last().len() && s.drop_last()[i] == seq_min(
                        s.drop_last(),
                    );
                assert(s[i] == seq_min(s.drop_last()));
            }
        }
        assert(s.drop_last().contains(seq_max(s.drop_last())) ==> s.contains(
            seq_max(s.drop_last()),
        )) by {
            if s.drop_last().contains(seq_max(s.drop_last())) {
                let i = choose|i: int|
                    0 <= i < s.drop_last().len() && s.drop_last()[i] == seq_max(
                        s.drop_last(),
                    );
                assert(s[i] == seq_max(s.drop_last()));
            }
        }
        assert(s[s.len() - 1] == s.last());
    }
}

/// Min-max scaling of one score into the unit fixed-point range.  When
/// every score in the set is the same, the scaled value is `SCALE`
/// (that is, 1.0), which avoids a division by zero.
pub open spec fn norm_score(s: u64, mn: u64, mx: u64) -> u64 {
    if mx == mn {
        SCALE
    } else {
        (((s - mn) * SCALE) / ((mx - mn) as int)) as u64
    }
}

/// The fused score: 0.6 times the normalized full-text score plus 0.4
/// times the semantic score, in fixed point.
pub open spec fn spec_fuse(f: u64, s: u64) -> u64 {
    (((FTS_WEIGHT * f) + (SEM_WEIGHT * s)) / (WEIGHT_DEN as int)) as u64
}

/// The value stored under an option, with zero for absence.
pub open spec fn opt0(o: Option<u64>) -> u64 {
    match o {
        Some(x) => x,
        None => 0,
    }
}

/// The score recorded for `p`, if any.
pub open spec fn lookup_score(s: Seq<(Seq<char>, u64)>, p: Seq<char>) -> Option<u64>
    decreases s.len(),
{
    if s.len() == 0 {
        None
    } else if s[0].0 == p {
        Some(s[0].1)
    } else {
        lookup_score(s.drop_first(), p)
    }
}

/// Appending a pair changes a lookup only where nothing was found.
pub proof fn lemma_lookup_snoc(s: Seq<(Seq<char>, u64)>, x: (Seq<char>, u64), p: Seq<char>)
    ensures
        lookup_score(s.push(x), p) == if lookup_score(s, p) is Some {
            lookup_score(s, p)
        } else if x.0 == p {
            Some(x.1)
        } else {
            None
        },
    decreases s.len(),
{
    if s.len() == 0 {
        assert(s.push(x)[0] == x);
        assert(s.push(x).drop_first() =~= Seq::<(Seq<char>, u64)>::empty());
    } else {
        assert(s.push(x)[0] == s[0]);
        assert(s.push(x).drop_first() =~= s.drop_first().push(x));
        lemma_lookup_snoc(s.drop_first(), x, p);
    }
}

/// A lookup succeeds exactly when some pair carries the path, and under
/// distinct paths it returns that pair's score.
pub proof fn lemma_lookup_index(s: Seq<(Seq<char>, u64)>, p: Seq<char>)
    ensures
        (lookup_score(s, p) is Some) <==> exists|i: int| 0 <= i < s.len() && s[i].0 == p,
        pair_paths_distinct(s) ==> forall|i: int|
            0 <= i < s.len() && s[i].0 == p ==> lookup_score(s, p) == Some(s[i].1),
    decreases s.len(),
{
    if s.len() > 0 {
        lemma_lookup_index(s.drop_first(), p);
        assert(forall|i: int|
            1 <= i < s.len() ==> s.drop_first()[i - 1] == s[i]);
        if s[0].0 != p {
            assert((exists|i: int| 0 <= i < s.len() && s[i].0 == p) <==> (exists|i: int|
                0 <= i < s.drop_first().len() && s.drop_first()[i].0 == p)) by {
                if exists|i: int| 0 <= i < s.len() && s[i].0 == p {
                    let i = choose|i: int| 0 <= i < s.len() && s[i].0 == p;
                    assert(s.drop_first()[i - 1].0 == p);
                }
            }
        }
        if pair_paths_distinct(s) {
            assert(pair_paths_distinct(s.drop_first()));
        }
    }
}

/// Two pair lists with the same paths in the same order, the second
/// scoring each pair by `f` of the first, have pointwise-related lookups.
pub proof fn lemma_lookup_mapped(
    s1: Seq<(Seq<char>, u64)>,
    s2: Seq<(Seq<char>, u64)>,
    f: spec_fn(u64) -> u64,
    p: Seq<char>,
)
    requires
        s1.len() == s2.len(),
        forall|i: int| 0 <= i < s1.len() ==> s2[i].0 == s1[i].0 && s2[i].1 == f(s1[i].1),
    ensures
        lookup_score(s2, p) == match lookup_score(s1, p) {
            Some(x) => Some(f(x)),
            None => None::<u64>,
        },
    decreases s1.len(),
{
    if s1.len() > 0 {
        assert(forall|i: int|
            0 <= i < s1.drop_first().len() ==> s1.drop_first()[i] == s1[i + 1]
                && s2.drop_first()[i] == s2[i + 1]);
        lemma_lookup_mapped(s1.drop_first(), s2.drop_first(), f, p);
    }
}

/// Fuses one pair of component scores.
pub fn fuse_scores(f: u64, s: u64) -> (r: u64)
    requires
        f <= SCALE,
        s <= SCALE,
    ensures
        r == spec_fuse(f, s),
        r <= SCALE,
{
    let r = (FTS_WEIGHT * f + SEM_WEIGHT * s) / WEIGHT_DEN;
    proof {
        lemma_div_is_ordered(
            (FTS_WEIGHT * f + SEM_WEIGHT * s) as int,
            (WEIGHT_DEN * SCALE) as int,
            WEIGHT_DEN as int,
        );
        lemma_div_by_multiple(SCALE as int, WEIGHT_DEN as int);
    }
    r
}

/// Min-max normalizes a full-text result set into the unit fixed-point
/// range.  When all scores are equal every normalized score is `SCALE`.
pub fn normalize_scores(v: &Vec<ScoredPath>) -> (r: Vec<ScoredPath>)
    requires
        forall|i: int| 0 <= i < v@.len() ==> v@[i].score <= SCORE_CAP,
    ensures
        r@.len() == v@.len(),
        forall|i: int| 0 <= i < v@.len() ==> r@[i].path@ == v@[i].path@,
        forall|i: int|
            0 <= i < v@.len() ==> r@[i].score == norm_score(
                v@[i].score,
                seq_min(scores_of(v@)),
                seq_max(scores_of(v@)),
            ),
        forall|i: int| 0 <= i < r@.len() ==> r@[i].score <= SCALE,
{
    let ghost sc = scores_of(v@);
    if v.len() == 0 {
        let r: Vec<ScoredPath> = Vec::new();
        return r;
    }
    proof {
        assert(sc.len() == v@.len());
        lemma_min_max(sc);
    }
    let mut mn: u64 = v[0].score;
    let mut mx: u64 = v[0].score;
    let mut i: usize = 1;
    proof {
        assert(sc.subrange(0, 1).len() == 1 && sc.subrange(0, 1)[0] == sc[0]);
        assert(sc[0] == v@[0].score);
    }
    while i < v.len()
        invariant
            1 <= i <= v@.len(),
            sc == scores_of(v@),
            sc.len() == v@.len(),
            mn == seq_min(sc.subrange(0, i as int)),
            mx == seq_max(sc.subrange(0, i as int)),
        decreases v@.len() - i,
    {
        proof {
            assert(sc.subrange(0, i + 1).drop_last() =~= sc.subrange(0, i as int));
            assert(sc.subrange(0, i + 1).last() == sc[i as int]);
            assert(sc[i as int] == v@[i as int].score);
        }
        if v[i].score < mn {
            mn = v[i].score;
        }
        if v[i].score > mx {
            mx = v[i].score;
        }
        i = i + 1;
    }
    proof {
        assert(sc.subrange(0, sc.len() as int) =~= sc);
    }
    let mut r: Vec<ScoredPath> = Vec::new();
    let mut k: usize = 0;
    while k < v.len()
        invariant
            0 <= k <= v@.len(),
            sc == scores_of(v@),
            sc.len() == v@.len(),
            mn == seq_min(sc),
            mx == seq_max(sc),
            forall|i2: int| 0 <= i2 < v@.len() ==> v@[i2].score <= SCORE_CAP,
            r@.len() == k,
            forall|i2: int| 0 <= i2 < k ==> r@[i2].path@ == v@[i2].path@,
            forall|i2: int|
                0 <= i2 < k ==> r@[i2].score == norm_score(v@[i2].score, mn, mx),
            forall|i2: int| 0 <= i2 < k ==> r@[i2].score <= SCALE,
        decreases v@.len() - k,
    {
        proof {
            lemma_min_max(sc);
            assert(sc[k as int] == v@[k as int].score);
        }
        let s = v[k].score;
        let ns: u64;
        if mx == mn {
            ns = SCALE;
        } else {
            ns = (s - mn) * SCALE / (mx - mn);
            proof {
                lemma_mul_inequality((s - mn) as int, (mx - mn) as int, SCALE as int);
                lemma_div_is_ordered(
                    ((s - mn) * SCALE) as int,
                    ((mx - mn) * SCALE) as int,
                    (mx - mn) as int,
                );
                lemma_div_by_multiple(SCALE as int, (mx - mn) as int);
            }
        }
        r.push(ScoredPath { path: v[k].path.clone(), score: ns });
        k = k + 1;
    }
    r
}

/// The index of the entry carrying `p`, if any.
fn find_by_path(v: &Vec<RankedResult>, p: &String) -> (r: Option<usize>)
    ensures
        match r {
            Some(i) => i < v@.len() && v@[i as int].path@ == p@,
            None => forall|k: int| 0 <= k < v@.len() ==> v@[k].path@ != p@,
        },
{
    let mut t: usize = 0;
    while t < v.len()
        invariant
            0 <= t <= v@.len(),
            forall|k: int| 0 <= k < t ==> v@[k].path@ != p@,
        decreases v@.len() - t,
    {
        if v[t].path == *p {
            return Some(t);
        }
        t = t + 1;
    }
    None
}

/// Unions two result sets by path and fuses their scores.  A path found
/// by only one side keeps `None` for the other component, which
/// contributes zero to the fused score.
#[verifier::rlimit(100)]
pub fn merge_and_fuse(fts: &Vec<ScoredPath>, sem: &Vec<ScoredPath>) -> (r: Vec<RankedResult>)
    requires
        pair_paths_distinct(score_views(fts@)),
        pair_paths_distinct(score_views(sem@)),
        forall|i: int| 0 <= i < fts@.len() ==> fts@[i].score <= SCALE,
        forall|i: int| 0 <= i < sem@.len() ==> sem@[i].score <= SCALE,
    ensures
        forall|i: int, j: int| 0 <= i < j < r@.len() ==> r@[i].path@ != r@[j].path@,
        forall|p: Seq<char>|
            (exists|i: int| 0 <= i < r@.len() && r@[i].path@ == p) <==> (
            lookup_score(score_views(fts@), p) is Some || lookup_score(
                score_views(sem@),
                p,
            ) is Some),
        forall|i: int|
            0 <= i < r@.len() ==> r@[i].fts_score == lookup_score(
                score_views(fts@),
                r@[i].path@,
            ) && r@[i].semantic_score == lookup_score(score_views(sem@), r@[i].path@)
                && r@[i].final_score == spec_fuse(
                opt0(r@[i].fts_score),
                opt0(r@[i].semantic_score),
            ) && r@[i].final_score <= SCALE,
{
    let ghost ftsv = score_views(fts@);
    let ghost semv = score_views(sem@);
    let mut out: Vec<RankedResult> = Vec::new();
    let mut i: usize = 0;
    while i < fts.len()
        invariant
            0 <= i <= fts@.len(),
            ftsv == score_views(fts@),
            forall|i2: int| 0 <= i2 < fts@.len() ==> fts@[i2].score <= SCALE,
            out@.len() == i,
            forall|k: int| 0 <= k < i ==> out@[k].path@ == fts@[k].path@,
            forall|k: int|
                0 <= k < i ==> out@[k].fts_score == Some(fts@[k].score)
                    && out@[k].semantic_score is None && out@[k].final_score == spec_fuse(
                    fts@[k].score,
                    0,
                ) && out@[k].final_score <= SCALE,
        decreases fts@.len() - i,
    {
        let f = fts[i].score;
        let fused = fuse_scores(f, 0);
        out.push(
            RankedResult {
                path: fts[i].path.clone(),
                fts_score: Some(f),
                semantic_score: None,
                final_score: fused,
            },
        );
        i = i + 1;
    }
    proof {
        assert(semv.subrange(0, 0) =~= Seq::<(Seq<char>, u64)>::empty());
        assert forall|p: Seq<char>| ((exists|k: int|
            0 <= k < out@.len() && out@[k].path@ == p) <==> (lookup_score(ftsv, p) is Some
            || lookup_score(semv.subrange(0, 0), p) is Some)) by {
            lemma_lookup_index(ftsv, p);
            if exists|k: int| 0 <= k < out@.len() && out@[k].path@ == p {
                let k = choose|k: int| 0 <= k < out@.len() && out@[k].path@ == p;
                assert(ftsv[k].0 == p);
            }
            if exists|i2: int| 0 <= i2 < ftsv.len() && ftsv[i2].0 == p {
                let i2 = choose|i2: int| 0 <= i2 < ftsv.len() && ftsv[i2].0 == p;
                assert(out@[i2].path@ == p);
            }
        }
        assert forall|k: int| 0 <= k < out@.len() implies out@[k].fts_score == lookup_score(
            ftsv,
            out@[k].path@,
        ) && out@[k].semantic_score == lookup_score(
            semv.subrange(0, 0),
            out@[k].path@,
        ) by {
            lemma_lookup_index(ftsv, out@[k].path@);
            assert(ftsv[k].0 == out@[k].path@ && ftsv[k].1 == fts@[k].score);
        }
        assert forall|a: int, b: int|
            0 <= a < b < out@.len() implies out@[a].path@ != out@[b].path@ by {
            assert(ftsv[a].0 == out@[a].path@ && ftsv[b].0 == out@[b].path@);
        }
    }
    let mut j: usize = 0;
    while j < sem.len()
        invariant
            0 <= j <= sem@.len(),
            ftsv == score_views(fts@),
            semv == score_views(sem@),
            pair_paths_distinct(ftsv),
            pair_paths_distinct(semv),
            forall|i2: int| 0 <= i2 < fts@.len() ==> fts@[i2].score <= SCALE,
            forall|i2: int| 0 <= i2 < sem@.len() ==> sem@[i2].score <= SCALE,
            forall|a: int, b: int| 0 <= a < b < out@.len() ==> out@[a].path@ != out@[b].path@,
            forall|p: Seq<char>|
                (exists|k: int| 0 <= k < out@.len() && out@[k].path@ == p) <==> (
                lookup_score(ftsv, p) is Some || lookup_score(
                    semv.subrange(0, j as int),
                    p,
                ) is Some),
            forall|k: int|
                0 <= k < out@.len() ==> out@[k].fts_score == lookup_score(
                    ftsv,
                    out@[k].path@,
                ) && out@[k].semantic_score == lookup_score(
                    semv.subrange(0, j as int),
                    out@[k].path@,
                ) && out@[k].final_score == spec_fuse(
                    opt0(out@[k].fts_score),
                    opt0(out@[k].semantic_score),
                ) && out@[k].final_score <= SCALE,
        decreases sem@.len() - j,
    {
        let p = &sem[j].path;
        let s = sem[j].score;
        proof {
            assert(semv[j as int] == (sem@[j as int].path@, sem@[j as int].score));
            assert(semv.subrange(0, j + 1) =~= semv.subrange(0, j as int).push(
                semv[j as int],
            ));
            assert forall|p2: Seq<char>| #[trigger] lookup_score(
                semv.subrange(0, j + 1),
                p2,
            ) == (if lookup_score(semv.subrange(0, j as int), p2) is Some {
                lookup_score(semv.subrange(0, j as int), p2)
            } else if semv[j as int].0 == p2 {
                Some(semv[j as int].1)
            } else {
                None
            }) by {
                lemma_lookup_snoc(semv.subrange(0, j as int), semv[j as int], p2);
            }
            assert(lookup_score(semv.subrange(0, j as int), sem@[j as int].path@)
                is None) by {
                lemma_lookup_index(semv.subrange(0, j as int), sem@[j as int].path@);
                if lookup_score(semv.subrange(0, j as int), sem@[j as int].path@)
                    is Some {
                    let k = choose|k: int|
                        0 <= k < j && semv.subrange(0, j as int)[k].0
                            == sem@[j as int].path@;
                    assert(semv[k].0 == semv[j as int].0);
                    assert(false);
                }
            }
        }
        let found = find_by_path(&out, p);
        match found {
            Some(x) => {
                let prev_f = out[x].fts_score;
                let fv: u64 = match prev_f {
                    Some(v) => v,
                    None => 0,
                };
                proof {
                    assert(out@[x as int].path@ == sem@[j as int].path@);
                    if prev_f is Some {
                        lemma_lookup_index(ftsv, out@[x as int].path@);
                        let ii = choose|ii: int|
                            0 <= ii < ftsv.len() && ftsv[ii].0 == out@[x as int].path@;
                        assert(ftsv[ii] == (fts@[ii].path@, fts@[ii].score));
                        assert(lookup_score(ftsv, out@[x as int].path@) == Some(
                            ftsv[ii].1,
                        ));
                        assert(fv == fts@[ii].score);
                    }
                    assert(fv <= SCALE);
                    assert(fv == opt0(prev_f));
                }
                let fused = fuse_scores(fv, s);
                let newe = RankedResult {
                    path: sem[j].path.clone(),
                    fts_score: prev_f,
                    semantic_score: Some(s),
                    final_score: fused,
                };
                let ghost out0 = out@;
                out.set(x, newe);
                proof {
                    assert(out@ =~= out0.update(x as int, newe));
                    assert(forall|k: int|
                        0 <= k < out@.len() && k != x ==> out@[k] == out0[k]);
                    assert(out@[x as int] == newe);
                    assert(newe.path@ == out0[x as int].path@);
                    assert forall|p2: Seq<char>| ((exists|k: int|
                        0 <= k < out@.len() && out@[k].path@ == p2) <==> (lookup_score(
                        ftsv,
                        p2,
                    ) is Some || lookup_score(semv.subrange(0, j + 1), p2) is Some)) by {
                        assert((exists|k: int|
                            0 <= k < out@.len() && out@[k].path@ == p2) <==> (exists|k: int|
                            0 <= k < out0.len() && out0[k].path@ == p2)) by {
                            if exists|k: int| 0 <= k < out@.len() && out@[k].path@ == p2 {
                                let k = choose|k: int|
                                    0 <= k < out@.len() && out@[k].path@ == p2;
                                assert(out0[k].path@ == p2);
                            }
                            if exists|k: int| 0 <= k < out0.len() && out0[k].path@ == p2 {
                                let k = choose|k: int|
                                    0 <= k < out0.len() && out0[k].path@ == p2;
                                assert(out@[k].path@ == p2);
                            }
                        }
                        if lookup_score(semv.subrange(0, j + 1), p2) is Some && !(
                        lookup_score(semv.subrange(0, j as int), p2) is Some) {
                            assert(p2 == sem@[j as int].path@);
                            assert(out0[x as int].path@ == p2);
                        }
                    }
                    assert forall|k: int| 0 <= k < out@.len() implies out@[k].fts_score
                        == lookup_score(ftsv, out@[k].path@) && out@[k].semantic_score
                        == lookup_score(semv.subrange(0, j + 1), out@[k].path@)
                        && out@[k].final_score == spec_fuse(
                        opt0(out@[k].fts_score),
                        opt0(out@[k].semantic_score),
                    ) && out@[k].final_score <= SCALE by {
                        if k == x {
                            assert(out@[k].fts_score == prev_f);
                            assert(lookup_score(semv.subrange(0, j + 1), out@[k].path@)
                                == Some(s));
                        } else {
                            assert(out@[k] == out0[k]);
                            assert(out@[k].path@ != sem@[j as int].path@);
                        }
                    }
                }
            },
            None => {
                proof {
                    assert(!(lookup_score(ftsv, sem@[j as int].path@) is Some)) by {
                        if lookup_score(ftsv, sem@[j as int].path@) is Some {
                            assert(exists|k: int|
                                0 <= k < out@.len() && out@[k].path@
                                    == sem@[j as int].path@);
                            let k = choose|k: int|
                                0 <= k < out@.len() && out@[k].path@
                                    == sem@[j as int].path@;
                            assert(false);
                        }
                    }
                }
                let fused = fuse_scores(0, s);
                let newe = RankedResult {
                    path: sem[j].path.clone(),
                    fts_score: None,
                    semantic_score: Some(s),
                    final_score: fused,
                };
                let ghost out0 = out@;
                out.push(newe);
                proof {
                    assert(out@ =~= out0.push(newe));
                    assert(forall|k: int| 0 <= k < out0.len() ==> out@[k] == out0[k]);
                    assert(out@[out0.len() as int] == newe);
                    assert(newe.path@ == sem@[j as int].path@);
                    assert forall|a: int, b: int|
                        0 <= a < b < out@.len() implies out@[a].path@ != out@[b].path@ by {
                        if b == out0.len() {
                            assert(out@[a] == out0[a]);
                        }
                    }
                    assert forall|p2: Seq<char>| ((exists|k: int|
                        0 <= k < out@.len() && out@[k].path@ == p2) <==> (lookup_score(
                        ftsv,
                        p2,
                    ) is Some || lookup_score(semv.subrange(0, j + 1), p2) is Some)) by {
                        if exists|k: int| 0 <= k < out@.len() && out@[k].path@ == p2 {
                            let k = choose|k: int|
                                0 <= k < out@.len() && out@[k].path@ == p2;
                            if k < out0.len() {
                                assert(out0[k].path@ == p2);
                            } else {
                                assert(p2 == sem@[j as int].path@);
                                assert(lookup_score(semv.subrange(0, j + 1), p2)
                                    is Some);
                            }
                        }
                        if lookup_score(ftsv, p2) is Some || lookup_score(
                            semv.subrange(0, j as int),
                            p2,
                        ) is Some {
                            let k = choose|k: int|
                                0 <= k < out0.len() && out0[k].path@ == p2;
                            assert(out@[k].path@ == p2);
                        }
                        if lookup_score(semv.subrange(0, j + 1), p2) is Some && !(
                        lookup_score(semv.subrange(0, j as int), p2) is Some) {
                            assert(p2 == sem@[j as int].path@);
                            assert(out@[out0.len() as int].path@ == p2);
                        }
                    }
                    assert forall|k: int| 0 <= k < out@.len() implies out@[k].fts_score
                        == lookup_score(ftsv, out@[k].path@) && out@[k].semantic_score
                        == lookup_score(semv.subrange(0, j + 1), out@[k].path@)
                        && out@[k].final_score == spec_fuse(
                        opt0(out@[k].fts_score),
                        opt0(out@[k].semantic_score),
                    ) && out@[k].final_score <= SCALE by {
                        if k < out0.len() {
                            assert(out@[k] == out0[k]);
                            assert(out@[k].path@ != sem@[j as int].path@);
                        } else {
                            assert(out@[k] == newe);
                            assert(lookup_score(semv.subrange(0, j + 1), newe.path@)
                                == Some(s));
                        }
                    }
                }
            },
        }
        j = j + 1;
    }
    proof {
        assert(semv.subrange(0, sem@.len() as int) =~= semv);
    }
    out
}


/// A value ordered by one score.
pub trait ScoreKeyed: Sized {
    /// The score the sort orders by.
    spec fn score_key(&self) -> u64;

    /// Reads the score.
    fn key(&self) -> (k: u64)
        ensures
            k == self.score_key(),
    ;
}

impl ScoreKeyed for ScoredPath {
    open spec fn score_key(&self) -> u64 {
        self.score
    }

    fn key(&self) -> (k: u64) {
        self.score
    }
}

impl ScoreKeyed for RankedResult {
    open spec fn score_key(&self) -> u64 {
        self.final_score
    }

    fn key(&self) -> (k: u64) {
        self.final_score
    }
}

/// Whether the scores run in non-increasing order.
pub open spec fn sorted_desc_by<T: ScoreKeyed>(s: Seq<T>) -> bool {
    forall|i: int, j: int| 0 <= i < j < s.len() ==> s[i].score_key() >= s[j].score_key()
}

/// Sorts a result list by non-increasing score.  The output holds
/// exactly the input's elements; equal scores are ordered arbitrarily.
pub fn sort_by_score_desc<T: ScoreKeyed>(v: Vec<T>) -> (r: Vec<T>)
    ensures
        sorted_desc_by(r@),
        r@.to_multiset() == v@.to_multiset(),
        r@.len() == v@.len(),
        forall|x: T| r@.contains(x) <==> v@.contains(x),
{
    let ghost orig = v@;
    let mut src = v;
    let mut out: Vec<T> = Vec::new();
    proof {
        assert(out@.to_multiset().add(src@.to_multiset()) =~= orig.to_multiset());
    }
    while src.len() > 0
        invariant
            out@.to_multiset().add(src@.to_multiset()) == orig.to_multiset(),
            sorted_desc_by(out@),
            forall|a: int, b: int|
                0 <= a < out@.len() && 0 <= b < src@.len() ==> out@[a].score_key()
                    >= src@[b].score_key(),
        decreases src@.len(),
    {
        let mut m: usize = 0;
        let mut best: u64 = src[0].key();
        let mut t: usize = 1;
        while t < src.len()
            invariant
                0 <= m < src@.len(),
                1 <= t <= src@.len(),
                best == src@[m as int].score_key(),
                forall|k: int| 0 <= k < t ==> best >= src@[k].score_key(),
            decreases src@.len() - t,
        {
            let k = src[t].key();
            if k > best {
                m = t;
                best = k;
            }
            t = t + 1;
        }
        let ghost src0 = src@;
        let x = src.remove(m);
        proof {
            assert(src0[m as int] == x);
            assert(src@.to_multiset() =~= src0.to_multiset().remove(x));
            assert(out@.push(x).to_multiset() =~= out@.to_multiset().insert(x));
            assert(out@.push(x).to_multiset().add(src@.to_multiset()) =~= orig.to_multiset());
            assert(forall|b: int|
                0 <= b < src@.len() ==> x.score_key() >= src@[b].score_key()) by {
                assert(forall|b: int|
                    0 <= b < src@.len() ==> src@[b] == (if b < m {
                        src0[b]
                    } else {
                        src0[b + 1]
                    }));
            }
            assert(forall|a: int|
                0 <= a < out@.len() ==> out@[a].score_key() >= x.score_key());
            assert(sorted_desc_by(out@.push(x))) by {
                assert(forall|a: int|
                    0 <= a < out@.len() ==> out@.push(x)[a] == out@[a]);
                assert(out@.push(x)[out@.len() as int] == x);
            }
        }
        out.push(x);
    }
    proof {
        assert(src@.to_multiset() =~= Multiset::<T>::empty());
        assert(out@.to_multiset() =~= orig.to_multiset());
        assert(out@.to_multiset().len() == out@.len());
        assert(orig.to_multiset().len() == orig.len());
        assert(forall|x: T| out@.contains(x) <==> out@.to_multiset().count(x) > 0);
        assert(forall|x: T| orig.contains(x) <==> orig.to_multiset().count(x) > 0);
    }
    out
}

/// Runs the whole hybrid ranking: min-max normalizes the full-text
/// scores, unions the two sets by path, fuses with the 0.6/0.4 weights,
/// and sorts by non-increasing fused score.
pub fn rank_hybrid(fts: &Vec<ScoredPath>, sem: &Vec<ScoredPath>) -> (r: Vec<RankedResult>)
    requires
        pair_paths_distinct(score_views(fts@)),
        pair_paths_distinct(score_views(sem@)),
        forall|i: int| 0 <= i < fts@.len() ==> fts@[i].score <= SCORE_CAP,
        forall|i: int| 0 <= i < sem@.len() ==> sem@[i].score <= SCALE,
    ensures
        sorted_desc_by(r@),
        forall|i: int, j: int| 0 <= i < j < r@.len() ==> r@[i].path@ != r@[j].path@,
        forall|p: Seq<char>|
            (exists|i: int| 0 <= i < r@.len() && r@[i].path@ == p) <==> (
            lookup_score(score_views(fts@), p) is Some || lookup_score(
                score_views(sem@),
                p,
            ) is Some),
        forall|i: int|
            0 <= i < r@.len() ==> r@[i].fts_score == (match lookup_score(
                score_views(fts@),
                r@[i].path@,
            ) {
                Some(x) => Some(
                    norm_score(x, seq_min(scores_of(fts@)), seq_max(scores_of(fts@))),
                ),
                None => None::<u64>,
            }) && r@[i].semantic_score == lookup_score(score_views(sem@), r@[i].path@)
                && r@[i].final_score == spec_fuse(
                opt0(r@[i].fts_score),
                opt0(r@[i].semantic_score),
            ) && r@[i].final_score <= SCALE,
{
    let normed = normalize_scores(fts);
    proof {
        assert(pair_paths_distinct(score_views(normed@))) by {
            assert(forall|i: int|
                0 <= i < normed@.len() ==> score_views(normed@)[i].0 == score_views(
                    fts@,
                )[i].0);
        }
    }
    let merged = merge_and_fuse(&normed, sem);
    let ghost mnv = seq_min(scores_of(fts@));
    let ghost mxv = seq_max(scores_of(fts@));
    proof {
        let f = |x: u64| norm_score(x, mnv, mxv);
        assert forall|p: Seq<char>| #[trigger] lookup_score(score_views(normed@), p)
            == (match lookup_score(score_views(fts@), p) {
            Some(x) => Some(f(x)),
            None => None::<u64>,
        }) by {
            assert(forall|i: int|
                0 <= i < fts@.len() ==> score_views(normed@)[i].0 == score_views(fts@)[i].0
                    && score_views(normed@)[i].1 == f(score_views(fts@)[i].1));
            lemma_lookup_mapped(score_views(fts@), score_views(normed@), f, p);
        }
    }
    let r = sort_by_score_desc(merged);
    proof {
        assert forall|p: Seq<char>| ((exists|i: int|
            0 <= i < r@.len() && r@[i].path@ == p) <==> (lookup_score(
            score_views(fts@),
            p,
        ) is Some || lookup_score(score_views(sem@), p) is Some)) by {
            if exists|i: int| 0 <= i < r@.len() && r@[i].path@ == p {
                let i = choose|i: int| 0 <= i < r@.len() && r@[i].path@ == p;
                assert(r@.contains(r@[i]));
                assert(merged@.contains(r@[i]));
                let k = choose|k: int| 0 <= k < merged@.len() && merged@[k] == r@[i];
                assert(merged@[k].path@ == p);
            }
            if exists|k: int| 0 <= k < merged@.len() && merged@[k].path@ == p {
                let k = choose|k: int| 0 <= k < merged@.len() && merged@[k].path@ == p;
                assert(merged@.contains(merged@[k]));
                assert(r@.contains(merged@[k]));
                let i = choose|i: int| 0 <= i < r@.len() && r@[i] == merged@[k];
                assert(r@[i].path@ == p);
            }
        }
        assert forall|i: int| 0 <= i < r@.len() implies r@[i].fts_score == (
        match lookup_score(score_views(fts@), r@[i].path@) {
            Some(x) => Some(norm_score(x, mnv, mxv)),
            None => None::<u64>,
        }) && r@[i].semantic_score == lookup_score(score_views(sem@), r@[i].path@)
            && r@[i].final_score == spec_fuse(
            opt0(r@[i].fts_score),
            opt0(r@[i].semantic_score),
        ) && r@[i].final_score <= SCALE by {
            assert(r@.contains(r@[i]));
            assert(merged@.contains(r@[i]));
            let k = choose|k: int| 0 <= k < merged@.len() && merged@[k] == r@[i];
            assert(merged@[k].fts_score == lookup_score(
                score_views(normed@),
                merged@[k].path@,
            ));
        }
    }
    proof {
        assert(merged@.no_duplicates()) by {
            assert forall|a: int, b: int|
                (0 <= a < merged@.len() && 0 <= b < merged@.len() && a != b) implies
                merged@[a] != merged@[b] by {
                if a < b {
                    assert(merged@[a].path@ != merged@[b].path@);
                } else {
                    assert(merged@[b].path@ != merged@[a].path@);
                }
            }
        }
        merged@.lemma_multiset_has_no_duplicates();
        r@.lemma_multiset_has_no_duplicates_conv();
        assert forall|i: int, j: int|
            0 <= i < j < r@.len() implies r@[i].path@ != r@[j].path@ by {
            if r@[i].path@ == r@[j].path@ {
                assert(r@[i] != r@[j]);
                assert(r@.contains(r@[i]) && r@.contains(r@[j]));
                assert(merged@.contains(r@[i]) && merged@.contains(r@[j]));
                let a = choose|a: int| 0 <= a < merged@.len() && merged@[a] == r@[i];
                let b = choose|b: int| 0 <= b < merged@.len() && merged@[b] == r@[j];
                assert(a != b);
                assert(merged@[a].path@ == merged@[b].path@);
                assert(false);
            }
        }
    }
    r
}

/// Score bounds for fusion: when both components lie within the unit
/// fixed-point range, so does the fused score.
pub proof fn lemma_fused_score_bounds(f: u64, s: u64)
    requires
        f <= SCALE,
        s <= SCALE,
    ensures
        spec_fuse(f, s) <= SCALE,
{
    lemma_div_is_ordered(
        (FTS_WEIGHT * f + SEM_WEIGHT * s) as int,
        (WEIGHT_DEN * SCALE) as int,
        WEIGHT_DEN as int,
    );
    lemma_div_by_multiple(SCALE as int, WEIGHT_DEN as int);
}

/// Min-max degeneracy: when every score in a non-empty result set is
/// the same, every normalized score is `SCALE` (that is, 1.0) — there
/// is no division by zero and nothing undefined enters the ranking.
pub proof fn lemma_minmax_degenerate(v: Seq<ScoredPath>)
    requires
        v.len() > 0,
        forall|i: int, j: int|
            0 <= i < v.len() && 0 <= j < v.len() ==> v[i].score == v[j].score,
    ensures
        forall|i: int|
            0 <= i < v.len() ==> norm_score(
                v[i].score,
                seq_min(scores_of(v)),
                seq_max(scores_of(v)),
            ) == SCALE,
{
    lemma_min_max(scores_of(v));
    let sc = scores_of(v);
    let km = choose|k: int| 0 <= k < sc.len() && sc[k] == seq_min(sc);
    let kx = choose|k: int| 0 <= k < sc.len() && sc[k] == seq_max(sc);
    assert(v[km].score == seq_min(sc) && v[kx].score == seq_max(sc));
    assert(seq_min(sc) == seq_max(sc));
}

/// Fusion weight check: a full full-text component alone fuses to 0.6,
/// and a full semantic component alone fuses to 0.4, in fixed point.
pub proof fn lemma_fusion_weights()
    ensures
        spec_fuse(SCALE, 0) == 600_000,
        spec_fuse(0, SCALE) == 400_000,
{
}

} // verus!
