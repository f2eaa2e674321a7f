//! Tokenization and full-text relevance scoring.
//!
//! Text is tokenized at the byte level: a token is a maximal run of ASCII
//! alphanumeric bytes, lowercased.  Bytes outside that range (including
//! every byte of a multi-byte UTF-8 character) separate tokens.  A
//! document matches a query when every query token occurs among the
//! document's tokens, and its relevance score is the total number of
//! occurrences of the query tokens, saturated at `SCORE_CAP`.

use vstd::prelude::*;
use crate::types::SCORE_CAP;

verus! {

/// Whether a byte belongs to a token: ASCII digit or letter.
pub open spec fn is_word_byte(b: u8) -> bool {
    (48 <= b <= 57) || (65 <= b <= 90) || (97 <= b <= 122)
}

/// ASCII lowercasing of one byte.
pub open spec fn lower_byte(b: u8) -> u8 {
    if 65 <= b <= 90 {
        (b + 32) as u8
    } else {
        b
    }
}

/// Length of the maximal run of word bytes at the front of `s`.
pub open spec fn word_len(s: Seq<u8>) -> nat
    decreases s.len(),
{
    if s.len() == 0 || !is_word_byte(s[0]) {
        0
    } else {
        1 + word_len(s.drop_first())
    }
}

/// The word run at the front never reaches past the end, and is
/// non-empty when the first byte is a word byte.
pub proof fn lemma_word_len_bounds(s: Seq<u8>)
    ensures
        word_len(s) <= s.len(),
        s.len() > 0 && is_word_byte(s[0]) ==> word_len(s) >= 1,
    decreases s.len(),
{
    if s.len() > 0 && is_word_byte(s[0]) {
        lemma_word_len_bounds(s.drop_first());
    }
}

/// The tokens of a byte sequence: maximal word-byte runs, lowercased.
pub open spec fn tokens_of(s: Seq<u8>) -> Seq<Seq<u8>>
    decreases s.len(),
    via tokens_of_decreases
{
    if s.len() == 0 {
        Seq::empty()
    } else if !is_word_byte(s[0]) {
        tokens_of(s.subrange(1, s.len() as int))
    } else {
        seq![s.subrange(0, word_len(s) as int).map_values(|b: u8| lower_byte(b))] + tokens_of(
            s.subrange(word_len(s) as int, s.len() as int),
        )
    }
}

#[via_fn]
proof fn tokens_of_decreases(s: Seq<u8>) {
    if s.len() > 0 && is_word_byte(s[0]) {
        lemma_word_len_bounds(s);
    }
}

/// The tokens of a text, through its UTF-8 bytes.
pub open spec fn tokens_of_text(s: Seq<char>) -> Seq<Seq<u8>> {
    tokens_of(vstd::utf8::encode_utf8(s))
}

/// The views of a vector of byte vectors.
pub open spec fn views_of(s: Seq<Vec<u8>>) -> Seq<Seq<u8>> {
    s.map_values(|v: Vec<u8>| v@)
}

/// How often the token `t` occurs in `toks`.
pub open spec fn count_token(toks: Seq<Seq<u8>>, t: Seq<u8>) -> nat
    decreases toks.len(),
{
    if toks.len() == 0 {
        0
    } else {
        count_token(toks.drop_last(), t) + if toks.last() == t {
            1nat
        } else {
            0nat
        }
    }
}

/// `count_token`, saturated at `SCORE_CAP`.
pub open spec fn capped_count(toks: Seq<Seq<u8>>, t: Seq<u8>) -> u64 {
    if count_token(toks, t) > SCORE_CAP {
        SCORE_CAP
    } else {
        count_token(toks, t) as u64
    }
}

/// Saturating addition at `SCORE_CAP`.
pub open spec fn cap_add(a: u64, b: u64) -> u64 {
    if a + b > SCORE_CAP {
        SCORE_CAP
    } else {
        (a + b) as u64
    }
}

/// A document matches a query when the query has at least one token and
/// every query token occurs among the document's tokens.
pub open spec fn doc_matches(doc_toks: Seq<Seq<u8>>, q_toks: Seq<Seq<u8>>) -> bool {
    q_toks.len() > 0 && forall|k: int| 0 <= k < q_toks.len() ==> doc_toks.contains(q_toks[k])
}

/// The relevance score of a document for a query: the saturating sum,
/// over the query tokens, of their capped occurrence counts.
pub open spec fn fts_score(doc_toks: Seq<Seq<u8>>, q_toks: Seq<Seq<u8>>) -> u64
    decreases q_toks.len(),
{
    if q_toks.len() == 0 {
        0
    } else {
        cap_add(fts_score(doc_toks, q_toks.drop_last()), capped_count(doc_toks, q_toks.last()))
    }
}

/// A token occurs in a list iff its count there is positive.
pub proof fn lemma_count_pos(toks: Seq<Seq<u8>>, t: Seq<u8>)
    ensures
        count_token(toks, t) > 0 <==> toks.contains(t),
    decreases toks.len(),
{
    if toks.len() > 0 {
        lemma_count_pos(toks.drop_last(), t);
        if toks.last() == t {
            assert(toks[toks.len() - 1] == t);
        } else {
            assert(toks.contains(t) ==> toks.drop_last().contains(t)) by {
                if toks.contains(t) {
                    let i = choose|i: int| 0 <= i < toks.len() && toks[i] == t;
                    assert(toks.drop_last()[i] == t);
                }
            }
        }
    }
}

/// A matching document scores at least one.
pub proof fn lemma_match_score_pos(doc_toks: Seq<Seq<u8>>, q_toks: Seq<Seq<u8>>)
    requires
        doc_matches(doc_toks, q_toks),
    ensures
        fts_score(doc_toks, q_toks) >= 1,
        fts_score(doc_toks, q_toks) <= SCORE_CAP,
{
    assert(doc_toks.contains(q_toks.last()));
    lemma_count_pos(doc_toks, q_toks.last());
    lemma_score_le_cap(doc_toks, q_toks);
}

/// Scores never exceed the cap.
pub proof fn lemma_score_le_cap(doc_toks: Seq<Seq<u8>>, q_toks: Seq<Seq<u8>>)
    ensures
        fts_score(doc_toks, q_toks) <= SCORE_CAP,
    decreases q_toks.len(),
{
    if q_toks.len() > 0 {
        lemma_score_le_cap(doc_toks, q_toks.drop_last());
    }
}

/// The word run at the front of `s` has length `k` exactly when the
/// first `k` bytes are word bytes and the byte after them, if any, is not.
proof fn lemma_word_len_characterize(s: Seq<u8>, k: int)
    requires
        0 <= k <= s.len(),
        forall|j: int| 0 <= j < k ==> is_word_byte(s[j]),
        k == s.len() || !is_word_byte(s[k]),
    ensures
        word_len(s) == k,
    decreases k,
{
    if k == 0 {
    } else {
        assert(is_word_byte(s[0]));
        lemma_word_len_characterize(s.drop_first(), k - 1);
    }
}

/// Whether a byte belongs to a token.
pub fn is_word(b: u8) -> (r: bool)
    ensures
        r == is_word_byte(b),
{
    (48 <= b && b <= 57) || (65 <= b && b <= 90) || (97 <= b && b <= 122)
}

/// ASCII lowercasing of one byte.
pub fn lower(b: u8) -> (r: u8)
    ensures
        r == lower_byte(b),
{
    if 65 <= b && b <= 90 {
        b + 32
    } else {
        b
    }
}

/// Splits a byte string into its tokens.
pub fn tokenize(bytes: &Vec<u8>) -> (r: Vec<Vec<u8>>)
    ensures
        views_of(r@) == tokens_of(bytes@),
{
    let len = bytes.len();
    let ghost full = bytes@;
    let mut out: Vec<Vec<u8>> = Vec::new();
    let mut i: usize = 0;
    proof {
        assert(full.subrange(0, len as int) =~= full);
        assert(views_of(out@) + tokens_of(full) =~= tokens_of(full));
    }
    while i < len
        invariant
            len == full.len(),
            bytes@ == full,
            0 <= i <= len,
            tokens_of(full) == views_of(out@) + tokens_of(full.subrange(i as int, len as int)),
        decreases len - i,
    {
        if !is_word(bytes[i]) {
            proof {
                let rest = full.subrange(i as int, len as int);
                assert(rest.subrange(1, rest.len() as int) =~= full.subrange(
                    i + 1,
                    len as int,
                ));
            }
            i = i + 1;
        } else {
            let start = i;
            let mut tok: Vec<u8> = Vec::new();
            while i < len && is_word(bytes[i])
                invariant
                    len == full.len(),
                    bytes@ == full,
                    start <= i <= len,
                    is_word_byte(full[start as int]),
                    forall|j: int| start <= j < i ==> is_word_byte(full[j]),
                    tok@ == full.subrange(start as int, i as int).map_values(
                        |b: u8| lower_byte(b),
                    ),
                decreases len - i,
            {
                tok.push(lower(bytes[i]));
                proof {
                    assert(full.subrange(start as int, i + 1).drop_last() =~= full.subrange(
                        start as int,
                        i as int,
                    ));
                    assert(full.subrange(start as int, i + 1).map_values(
                        |b: u8| lower_byte(b),
                    ) =~= full.subrange(start as int, i as int).map_values(
                        |b: u8| lower_byte(b),
                    ).push(lower_byte(full[i as int])));
                }
                i = i + 1;
            }
            proof {
                let rest = full.subrange(start as int, len as int);
                assert(forall|j: int|
                    0 <= j < i - start ==> is_word_byte(#[trigger] rest[j]));
                assert(i - start == rest.len() || !is_word_byte(rest[i - start]));
                lemma_word_len_characterize(rest, i - start);
                assert(rest.subrange(0, i - start) =~= full.subrange(
                    start as int,
                    i as int,
                ));
                assert(rest.subrange(i - start, rest.len() as int) =~= full.subrange(
                    i as int,
                    len as int,
                ));
                assert(tokens_of(rest) == seq![tok@] + tokens_of(
                    full.subrange(i as int, len as int),
                ));
                assert(views_of(out@.push(tok)) =~= views_of(out@).push(tok@));
                assert(views_of(out@) + tokens_of(rest) =~= views_of(out@.push(tok))
                    + tokens_of(full.subrange(i as int, len as int)));
            }
            out.push(tok);
        }
    }
    proof {
        assert(full.subrange(len as int, len as int) =~= Seq::<u8>::empty());
        assert(views_of(out@) + tokens_of(full.subrange(i as int, len as int)) =~= views_of(
            out@,
        ));
    }
    out
}

/// Whether two byte vectors hold the same bytes.
pub fn bytes_eq(a: &Vec<u8>, b: &Vec<u8>) -> (r: bool)
    ensures
        r == (a@ == b@),
{
    if a.len() != b.len() {
        proof {
            assert(a@ != b@);
        }
        return false;
    }
    let mut i: usize = 0;
    while i < a.len()
        invariant
            a@.len() == b@.len(),
            0 <= i <= a@.len(),
            forall|j: int| 0 <= j < i ==> a@[j] == b@[j],
        decreases a@.len() - i,
    {
        if a[i] != b[i] {
            return false;
        }
        i = i + 1;
    }
    proof {
        assert(a@ =~= b@);
    }
    true
}

/// Counts the occurrences of `t` in `toks`, saturating at `SCORE_CAP`.
pub fn count_occurrences(toks: &Vec<Vec<u8>>, t: &Vec<u8>) -> (c: u64)
    ensures
        c == capped_count(views_of(toks@), t@),
{
    let mut c: u64 = 0;
    let mut i: usize = 0;
    let ghost all = views_of(toks@);
    while i < toks.len()
        invariant
            all == views_of(toks@),
            0 <= i <= toks@.len(),
            c == capped_count(all.subrange(0, i as int), t@),
            c <= SCORE_CAP,
        decreases toks@.len() - i,
    {
        let same = bytes_eq(&toks[i], t);
        proof {
            assert(all.subrange(0, i + 1).drop_last() =~= all.subrange(0, i as int));
            assert(all.subrange(0, i + 1).last() == toks@[i as int]@);
        }
        if same && c < SCORE_CAP {
            c = c + 1;
        } else {
            proof {
                if same {
                    assert(count_token(all.subrange(0, i + 1), t@) > SCORE_CAP);
                }
            }
        }
        i = i + 1;
    }
    proof {
        assert(all.subrange(0, toks@.len() as int) =~= all);
    }
    c
}

/// Whether every query token occurs among the document's tokens.
pub fn matches_query(doc_toks: &Vec<Vec<u8>>, q_toks: &Vec<Vec<u8>>) -> (r: bool)
    ensures
        r == doc_matches(views_of(doc_toks@), views_of(q_toks@)),
{
    if q_toks.len() == 0 {
        return false;
    }
    let mut k: usize = 0;
    while k < q_toks.len()
        invariant
            0 <= k <= q_toks@.len(),
            q_toks@.len() > 0,
            forall|j: int|
                0 <= j < k ==> views_of(doc_toks@).contains(views_of(q_toks@)[j]),
        decreases q_toks@.len() - k,
    {
        let c = count_occurrences(doc_toks, &q_toks[k]);
        proof {
            lemma_count_pos(views_of(doc_toks@), q_toks@[k as int]@);
        }
        if c == 0 {
            proof {
                assert(!views_of(doc_toks@).contains(views_of(q_toks@)[k as int]));
            }
            return false;
        }
        k = k + 1;
    }
    true
}

/// Computes the relevance score of a document for a query.
pub fn score_query(doc_toks: &Vec<Vec<u8>>, q_toks: &Vec<Vec<u8>>) -> (s: u64)
    ensures
        s == fts_score(views_of(doc_toks@), views_of(q_toks@)),
        s <= SCORE_CAP,
{
    let ghost dv = views_of(doc_toks@);
    let ghost qv = views_of(q_toks@);
    let mut s: u64 = 0;
    let mut k: usize = 0;
    while k < q_toks.len()
        invariant
            dv == views_of(doc_toks@),
            qv == views_of(q_toks@),
            0 <= k <= q_toks@.len(),
            s == fts_score(dv, qv.subrange(0, k as int)),
            s <= SCORE_CAP,
        decreases q_toks@.len() - k,
    {
        let c = count_occurrences(doc_toks, &q_toks[k]);
        proof {
            assert(qv.subrange(0, k + 1).drop_last() =~= qv.subrange(0, k as int));
            assert(qv.subrange(0, k + 1).last() == q_toks@[k as int]@);
        }
        if s + c > SCORE_CAP {
            s = SCORE_CAP;
        } else {
            s = s + c;
        }
        k = k + 1;
    }
    proof {
        assert(qv.subrange(0, q_toks@.len() as int) =~= qv);
    }
    s
}

/// One tokenization step: a word of length `k` at the front comes off
/// as one token.
pub proof fn lemma_tokens_step_word(s: Seq<u8>, k: int)
    requires
        1 <= k <= s.len(),
        forall|j: int| 0 <= j < k ==> is_word_byte(s[j]),
        k == s.len() || !is_word_byte(s[k]),
    ensures
        tokens_of(s) == seq![s.subrange(0, k).map_values(|b: u8| lower_byte(b))]
            + tokens_of(s.subrange(k, s.len() as int)),
{
    lemma_word_len_characterize(s, k);
}

/// One tokenization step: a separator byte at the front comes off.
pub proof fn lemma_tokens_step_sep(s: Seq<u8>)
    requires
        s.len() > 0,
        !is_word_byte(s[0]),
    ensures
        tokens_of(s) == tokens_of(s.subrange(1, s.len() as int)),
{
}

/// The token facts behind the walkthrough of the search modes: the
/// content "the quick fox" holds the query token of "fox" while
/// "the lazy dog" does not, and "fox" itself is a single token.
pub proof fn lemma_scenario_tokens()
    ensures
        tokens_of_text("fox"@).len() == 1,
        doc_matches(tokens_of_text("the quick fox"@), tokens_of_text("fox"@)),
        !doc_matches(tokens_of_text("the lazy dog"@), tokens_of_text("fox"@)),
{
    reveal_strlit("fox");
    reveal_strlit("the quick fox");
    reveal_strlit("the lazy dog");
    let t_the = seq![116u8, 104u8, 101u8];
    let t_quick = seq![113u8, 117u8, 105u8, 99u8, 107u8];
    let t_lazy = seq![108u8, 97u8, 122u8, 121u8];
    let t_fox = seq![102u8, 111u8, 120u8];
    let t_dog = seq![100u8, 111u8, 103u8];

    // "fox" is the single token [f, o, x].
    let cf = seq!['f', 'o', 'x'];
    assert("fox"@ =~= cf);
    assert(vstd::utf8::is_ascii_chars(cf));
    vstd::utf8::is_ascii_chars_encode_utf8(cf);
    assert(vstd::utf8::encode_utf8(cf) =~= t_fox);
    lemma_tokens_step_word(t_fox, 3);
    assert(t_fox.subrange(0, 3) =~= t_fox);
    assert(t_fox.map_values(|x: u8| lower_byte(x)) =~= t_fox);
    assert(t_fox.subrange(3, 3) =~= Seq::<u8>::empty());
    assert(tokens_of(t_fox) =~= seq![t_fox]);
    assert(tokens_of_text("fox"@) == seq![t_fox]);

    // "the quick fox" tokenizes as [the, quick, fox].
    let c1 = seq!['t', 'h', 'e', ' ', 'q', 'u', 'i', 'c', 'k', ' ', 'f', 'o', 'x'];
    assert("the quick fox"@ =~= c1);
    assert(vstd::utf8::is_ascii_chars(c1));
    vstd::utf8::is_ascii_chars_encode_utf8(c1);
    let b1 = seq![
        116u8,
        104u8,
        101u8,
        32u8,
        113u8,
        117u8,
        105u8,
        99u8,
        107u8,
        32u8,
        102u8,
        111u8,
        120u8,
    ];
    assert(vstd::utf8::encode_utf8(c1) =~= b1);
    lemma_tokens_step_word(b1, 3);
    assert(b1.subrange(0, 3).map_values(|x: u8| lower_byte(x)) =~= t_the);
    let r1 = b1.subrange(3, 13);
    lemma_tokens_step_sep(r1);
    let r2 = b1.subrange(4, 13);
    assert(r1.subrange(1, 10) =~= r2);
    lemma_tokens_step_word(r2, 5);
    assert(r2.subrange(0, 5).map_values(|x: u8| lower_byte(x)) =~= t_quick);
    let r3 = r2.subrange(5, 9);
    lemma_tokens_step_sep(r3);
    let r4 = b1.subrange(10, 13);
    assert(r3.subrange(1, 4) =~= r4);
    assert(r4 =~= t_fox);
    assert(tokens_of(b1) =~= seq![t_the, t_quick, t_fox]);
    assert(tokens_of_text("the quick fox"@) == seq![t_the, t_quick, t_fox]);
    assert(seq![t_the, t_quick, t_fox][2] == t_fox);
    assert(seq![t_the, t_quick, t_fox].contains(t_fox));
    assert(doc_matches(seq![t_the, t_quick, t_fox], seq![t_fox]));

    // "the lazy dog" tokenizes as [the, lazy, dog], none of them "fox".
    let c2 = seq!['t', 'h', 'e', ' ', 'l', 'a', 'z', 'y', ' ', 'd', 'o', 'g'];
    assert("the lazy dog"@ =~= c2);
    assert(vstd::utf8::is_ascii_chars(c2));
    vstd::utf8::is_ascii_chars_encode_utf8(c2);
    let b2 = seq![
        116u8,
        104u8,
        101u8,
        32u8,
        108u8,
        97u8,
        122u8,
        121u8,
        32u8,
        100u8,
        111u8,
        103u8,
    ];
    assert(vstd::utf8::encode_utf8(c2) =~= b2);
    lemma_tokens_step_word(b2, 3);
    assert(b2.subrange(0, 3).map_values(|x: u8| lower_byte(x)) =~= t_the);
    let s1 = b2.subrange(3, 12);
    lemma_tokens_step_sep(s1);
    let s2 = b2.subrange(4, 12);
    assert(s1.subrange(1, 9) =~= s2);
    lemma_tokens_step_word(s2, 4);
    assert(s2.subrange(0, 4).map_values(|x: u8| lower_byte(x)) =~= t_lazy);
    let s3 = s2.subrange(4, 8);
    lemma_tokens_step_sep(s3);
    let s4 = b2.subrange(9, 12);
    assert(s3.subrange(1, 4) =~= s4);
    lemma_tokens_step_word(s4, 3);
    assert(s4.subrange(0, 3).map_values(|x: u8| lower_byte(x)) =~= t_dog);
    assert(s4.subrange(3, 3) =~= Seq::<u8>::empty());
    assert(tokens_of(s4) =~= seq![t_dog]);
    assert(tokens_of(b2) =~= seq![t_the, t_lazy, t_dog]);
    assert(tokens_of_text("the lazy dog"@) == seq![t_the, t_lazy, t_dog]);
    assert(!seq![t_the, t_lazy, t_dog].contains(t_fox)) by {
        if seq![t_the, t_lazy, t_dog].contains(t_fox) {
            let i = choose|i: int|
                0 <= i < 3 && seq![t_the, t_lazy, t_dog][i] == t_fox;
            assert(t_the[0] == 116 && t_fox[0] == 102);
            assert(t_lazy.len() == 4 && t_fox.len() == 3);
            assert(t_dog[0] == 100);
            assert(false);
        }
    }
}

} // verus!
