//! The embedding provider: maps text to a fixed-length vector of
//! fixed-point components.
//!
//! This provider is deterministic and total: the vector is computed from
//! the text's bytes alone, every component lies below `EMBED_MOD`, and
//! the vector always has `EMBED_DIM` components.  The component bound is
//! chosen so that the dot product of any two such vectors stays within
//! the unit fixed-point range, which stands in for unit-normalized
//! embeddings.

use vstd::prelude::*;
use crate::types::{EMBED_DIM, EMBED_MOD};

verus! {

/// Component `j` of the embedding of `bytes`: a rolling hash of the
/// bytes, seeded by the component index and reduced modulo `EMBED_MOD`.
pub open spec fn embed_component(bytes: Seq<u8>, j: int) -> u64
    decreases bytes.len(),
{
    if bytes.len() == 0 {
        0
    } else {
        (((embed_component(bytes.drop_last(), j) * 31) + bytes.last() + j) % (
        EMBED_MOD as int)) as u64
    }
}

/// The embedding of a byte sequence.
pub open spec fn embed_spec(bytes: Seq<u8>) -> Seq<u64> {
    Seq::new(EMBED_DIM as nat, |j: int| embed_component(bytes, j))
}

/// The embedding of a text, through its UTF-8 bytes.
pub open spec fn embed_of_text(s: Seq<char>) -> Seq<u64> {
    embed_spec(vstd::utf8::encode_utf8(s))
}

/// Every component of an embedding lies below `EMBED_MOD`.
pub proof fn lemma_embed_component_bound(bytes: Seq<u8>, j: int)
    requires
        0 <= j,
    ensures
        embed_component(bytes, j) < EMBED_MOD,
    decreases bytes.len(),
{
    if bytes.len() > 0 {
        lemma_embed_component_bound(bytes.drop_last(), j);
    }
}

/// The embedding provider.  It holds no state: embeddings are a pure
/// function of the text.
pub struct LocalEmbedder {}

impl LocalEmbedder {
    /// A fresh provider.
    pub fn new() -> (e: Self) {
        LocalEmbedder {  }
    }

    /// Embeds a byte sequence.
    pub fn embed_bytes(&self, bytes: &Vec<u8>) -> (r: Vec<u64>)
        ensures
            r@ == embed_spec(bytes@),
            r@.len() == EMBED_DIM,
            forall|j: int| 0 <= j < EMBED_DIM ==> r@[j] < EMBED_MOD,
    {
        let mut r: Vec<u64> = Vec::new();
        let mut j: usize = 0;
        while j < EMBED_DIM
            invariant
                0 <= j <= EMBED_DIM,
                r@.len() == j,
                forall|k: int| 0 <= k < j ==> r@[k] == embed_component(bytes@, k),
            decreases EMBED_DIM - j,
        {
            let mut h: u64 = 0;
            let mut i: usize = 0;
            proof {
                assert(bytes@.subrange(0, 0) =~= Seq::<u8>::empty());
            }
            while i < bytes.len()
                invariant
                    0 <= i <= bytes@.len(),
                    0 <= j < EMBED_DIM,
                    h == embed_component(bytes@.subrange(0, i as int), j as int),
                    h < EMBED_MOD,
                decreases bytes@.len() - i,
            {
                proof {
                    lemma_embed_component_bound(bytes@.subrange(0, i as int), j as int);
                    assert(bytes@.subrange(0, i + 1).drop_last() =~= bytes@.subrange(
                        0,
                        i as int,
                    ));
                    assert(bytes@.subrange(0, i + 1).last() == bytes@[i as int]);
                }
                h = (h * 31 + bytes[i] as u64 + j as u64) % EMBED_MOD;
                i = i + 1;
            }
            proof {
                assert(bytes@.subrange(0, bytes@.len() as int) =~= bytes@);
            }
            r.push(h);
            j = j + 1;
        }
        proof {
            assert(r@ =~= embed_spec(bytes@));
        }
        r
    }

    /// Embeds a text through its UTF-8 bytes.
    pub fn embed_text(&self, text: &str) -> (r: Vec<u64>)
        ensures
            r@ == embed_of_text(text@),
            r@.len() == EMBED_DIM,
            forall|j: int| 0 <= j < EMBED_DIM ==> r@[j] < EMBED_MOD,
    {
        let bytes = text.as_bytes_vec();
        self.embed_bytes(&bytes)
    }
}

/// Byte `k` of the little-endian encoding of `w`.
pub open spec fn le_byte(w: u64, k: int) -> u8
    recommends
        0 <= k < 8,
{
    ((w >> ((8 * k) as u64)) & 0xff) as u8
}

/// The word stored little-endian at bytes `8 * i .. 8 * i + 8`.
pub open spec fn le_word(bytes: Seq<u8>, i: int) -> u64
    recommends
        0 <= i,
        8 * i + 8 <= bytes.len(),
{
    (bytes[8 * i] as u64) | ((bytes[8 * i + 1] as u64) << 8) | ((bytes[8 * i + 2] as u64)
        << 16) | ((bytes[8 * i + 3] as u64) << 24) | ((bytes[8 * i + 4] as u64) << 32) | ((
    bytes[8 * i + 5] as u64) << 40) | ((bytes[8 * i + 6] as u64) << 48) | ((bytes[8 * i
        + 7] as u64) << 56)
}

/// Encodes a vector of words as a contiguous little-endian byte
/// sequence; reading any word position of the result gives the word
/// back, so `embedding_from_bytes` inverts this encoding.
pub fn embedding_to_bytes(v: &Vec<u64>) -> (r: Vec<u8>)
    ensures
        r@.len() == 8 * v@.len(),
        forall|i: int| 0 <= i < v@.len() ==> le_word(r@, i) == v@[i],
{
    let mut r: Vec<u8> = Vec::new();
    let mut i: usize = 0;
    while i < v.len()
        invariant
            0 <= i <= v@.len(),
            r@.len() == 8 * i,
            forall|j: int| 0 <= j < i ==> le_word(r@, j) == v@[j],
        decreases v@.len() - i,
    {
        let ghost r0 = r@;
        let w = v[i];
        r.push((w & 0xff) as u8);
        r.push(((w >> 8) & 0xff) as u8);
        r.push(((w >> 16) & 0xff) as u8);
        r.push(((w >> 24) & 0xff) as u8);
        r.push(((w >> 32) & 0xff) as u8);
        r.push(((w >> 40) & 0xff) as u8);
        r.push(((w >> 48) & 0xff) as u8);
        r.push(((w >> 56) & 0xff) as u8);
        proof {
            assert(forall|t: int| 0 <= t < r0.len() ==> r@[t] == r0[t]);
            assert forall|j: int| 0 <= j < i implies le_word(r@, j) == v@[j] by {
                assert(8 * j + 7 < 8 * i);
                assert(le_word(r@, j) == le_word(r0, j)) by {
                    assert(r@[8 * j] == r0[8 * j]);
                    assert(r@[8 * j + 1] == r0[8 * j + 1]);
                    assert(r@[8 * j + 2] == r0[8 * j + 2]);
                    assert(r@[8 * j + 3] == r0[8 * j + 3]);
                    assert(r@[8 * j + 4] == r0[8 * j + 4]);
                    assert(r@[8 * j + 5] == r0[8 * j + 5]);
                    assert(r@[8 * j + 6] == r0[8 * j + 6]);
                    assert(r@[8 * j + 7] == r0[8 * j + 7]);
                }
            }
            assert(le_word(r@, i as int) == w) by {
                assert(r@[8 * i] == (w & 0xff) as u8);
                assert(r@[8 * i + 1] == ((w >> 8) & 0xff) as u8);
                assert(r@[8 * i + 2] == ((w >> 16) & 0xff) as u8);
                assert(r@[8 * i + 3] == ((w >> 24) & 0xff) as u8);
                assert(r@[8 * i + 4] == ((w >> 32) & 0xff) as u8);
                assert(r@[8 * i + 5] == ((w >> 40) & 0xff) as u8);
                assert(r@[8 * i + 6] == ((w >> 48) & 0xff) as u8);
                assert(r@[8 * i + 7] == ((w >> 56) & 0xff) as u8);
                assert((((w & 0xff) as u8) as u64) | (((((w >> 8) & 0xff) as u8) as u64)
                    << 8) | (((((w >> 16) & 0xff) as u8) as u64) << 16) | (((((w >> 24)
                    & 0xff) as u8) as u64) << 24) | (((((w >> 32) & 0xff) as u8) as u64)
                    << 32) | (((((w >> 40) & 0xff) as u8) as u64) << 40) | (((((w >> 48)
                    & 0xff) as u8) as u64) << 48) | (((((w >> 56) & 0xff) as u8) as u64)
                    << 56) == w) by (bit_vector);
            }
        }
        i = i + 1;
    }
    r
}

/// Decodes a contiguous little-endian byte sequence back into words;
/// trailing bytes short of a full word are ignored.
pub fn embedding_from_bytes(b: &Vec<u8>) -> (r: Vec<u64>)
    ensures
        r@.len() == b@.len() / 8,
        forall|i: int| 0 <= i < r@.len() ==> r@[i] == le_word(b@, i),
{
    let n = b.len() / 8;
    proof {
        assert(8 * (b@.len() / 8) <= b@.len());
    }
    let len = b.len();
    let mut r: Vec<u64> = Vec::new();
    let mut i: usize = 0;
    let mut base: usize = 0;
    while i < n
        invariant
            len == b@.len(),
            n == b@.len() / 8,
            8 * n <= b@.len(),
            0 <= i <= n,
            base == 8 * i,
            r@.len() == i,
            forall|j: int| 0 <= j < i ==> r@[j] == le_word(b@, j),
        decreases n - i,
    {
        proof {
            assert(8 * i + 8 <= 8 * n);
        }
        let w = (b[base] as u64) | ((b[base + 1] as u64) << 8) | ((b[base + 2] as u64)
            << 16) | ((b[base + 3] as u64) << 24) | ((b[base + 4] as u64) << 32) | ((b[base
            + 5] as u64) << 40) | ((b[base + 6] as u64) << 48) | ((b[base + 7] as u64)
            << 56);
        r.push(w);
        i = i + 1;
        base = base + 8;
    }
    r
}

} // verus!
