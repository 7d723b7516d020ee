//! Wire primitives: 64-bit words as the unit of every encoding.
//!
//! Every structure in the stream format is first laid out as a sequence of
//! `u64` words; a whole stream is turned into bytes only once, at its outer
//! edge, eight little-endian bytes per word.  Content identity is a
//! word-sequence hash, so the identity of a fragment is a deterministic
//! function of its encoding alone.

use vstd::bytes::{
    lemma_auto_spec_u64_to_from_le_bytes, spec_u64_from_le_bytes, spec_u64_to_le_bytes,
    u64_from_le_bytes, u64_to_le_bytes,
};
use vstd::prelude::*;
use vstd::slice::slice_subrange;

verus! {

/// Offset basis of the word hash.
pub const HASH_BASIS: u64 = 0xcbf29ce484222325;

/// Multiplier of the word hash.
pub const HASH_PRIME: u64 = 0x100000001b3;

/// The little-endian byte image of a word sequence.
pub open spec fn words_as_bytes(ws: Seq<u64>) -> Seq<u8>
    decreases ws.len(),
{
    if ws.len() == 0 {
        Seq::empty()
    } else {
        spec_u64_to_le_bytes(ws[0]) + words_as_bytes(ws.drop_first())
    }
}

/// The words read back from a byte sequence whose length is a multiple of
/// eight.
pub open spec fn bytes_as_words(bs: Seq<u8>) -> Seq<u64>
    recommends
        bs.len() % 8 == 0,
{
    Seq::new(bs.len() / 8, |k: int| spec_u64_from_le_bytes(bs.subrange(8 * k, 8 * k + 8)))
}

pub proof fn lemma_words_as_bytes_len(ws: Seq<u64>)
    ensures
        words_as_bytes(ws).len() == 8 * ws.len(),
    decreases ws.len(),
{
    lemma_auto_spec_u64_to_from_le_bytes();
    if ws.len() > 0 {
        lemma_words_as_bytes_len(ws.drop_first());
    }
}

/// Appending one word appends its eight bytes.
pub proof fn lemma_words_as_bytes_push(ws: Seq<u64>, w: u64)
    ensures
        words_as_bytes(ws.push(w)) == words_as_bytes(ws) + spec_u64_to_le_bytes(w),
    decreases ws.len(),
{
    lemma_auto_spec_u64_to_from_le_bytes();
    if ws.len() == 0 {
        assert(ws.push(w)[0] == w);
        assert(ws.push(w).drop_first() =~= Seq::<u64>::empty());
        assert(words_as_bytes(ws.push(w)) == spec_u64_to_le_bytes(w) + words_as_bytes(
            Seq::<u64>::empty(),
        ));
        assert(spec_u64_to_le_bytes(w) + words_as_bytes(Seq::<u64>::empty())
            =~= spec_u64_to_le_bytes(w));
        assert(words_as_bytes(ws) + spec_u64_to_le_bytes(w) =~= spec_u64_to_le_bytes(w));
    } else {
        assert(ws.push(w).drop_first() =~= ws.drop_first().push(w));
        lemma_words_as_bytes_push(ws.drop_first(), w);
        assert(words_as_bytes(ws.push(w)) =~= words_as_bytes(ws) + spec_u64_to_le_bytes(w));
    }
}

/// Reading the byte image of a word sequence gives the words back.
pub proof fn lemma_words_bytes_roundtrip(ws: Seq<u64>)
    ensures
        words_as_bytes(ws).len() % 8 == 0,
        bytes_as_words(words_as_bytes(ws)) == ws,
    decreases ws.len(),
{
    lemma_auto_spec_u64_to_from_le_bytes();
    lemma_words_as_bytes_len(ws);
    if ws.len() == 0 {
        assert(bytes_as_words(words_as_bytes(ws)) =~= ws);
    } else {
        let tail = ws.drop_first();
        lemma_words_bytes_roundtrip(tail);
        lemma_words_as_bytes_len(tail);
        let bs = words_as_bytes(ws);
        assert forall|k: int| 0 <= k < ws.len() implies bytes_as_words(bs)[k] == ws[k] by {
            if k == 0 {
                assert(bs.subrange(0, 8) =~= spec_u64_to_le_bytes(ws[0]));
            } else {
                assert(bs.subrange(8 * k, 8 * k + 8) =~= words_as_bytes(tail).subrange(
                    8 * (k - 1),
                    8 * (k - 1) + 8,
                ));
                assert(bytes_as_words(words_as_bytes(tail))[k - 1] == tail[k - 1]);
            }
        }
        assert(bytes_as_words(bs) =~= ws);
    }
}

/// Serialize a word sequence into its little-endian byte image.
pub fn words_to_bytes(ws: &Vec<u64>) -> (r: Vec<u8>)
    ensures
        r@ == words_as_bytes(ws@),
{
    let mut r: Vec<u8> = Vec::new();
    let mut i: usize = 0;
    proof {
        assert(ws@.subrange(0, 0) =~= Seq::<u64>::empty());
    }
    while i < ws.len()
        invariant
            i <= ws.len(),
            r@ == words_as_bytes(ws@.subrange(0, i as int)),
        decreases ws.len() - i,
    {
        let mut piece = u64_to_le_bytes(ws[i]);
        r.append(&mut piece);
        proof {
            assert(ws@.subrange(0, i + 1) =~= ws@.subrange(0, i as int).push(ws@[i as int]));
            lemma_words_as_bytes_push(ws@.subrange(0, i as int), ws@[i as int]);
        }
        i = i + 1;
    }
    proof {
        assert(ws@.subrange(0, ws@.len() as int) =~= ws@);
    }
    r
}

/// Deserialize a byte buffer into words; `None` when the length is not a
/// multiple of eight.
pub fn bytes_to_words(bs: &[u8]) -> (r: Option<Vec<u64>>)
    ensures
        match r {
            Some(ws) => bs@.len() % 8 == 0 && ws@ == bytes_as_words(bs@),
            None => bs@.len() % 8 != 0,
        },
{
    if bs.len() % 8 != 0 {
        return None;
    }
    let len = bs.len();
    let n = len / 8;
    proof {
        assert(8 * n == bs@.len());
    }
    let mut ws: Vec<u64> = Vec::new();
    let mut k: usize = 0;
    while k < n
        invariant
            k <= n,
            len == bs@.len(),
            n == bs@.len() / 8,
            8 * n == len,
            bs@.len() % 8 == 0,
            ws@.len() == k,
            forall|j: int|
                0 <= j < k ==> ws@[j] == spec_u64_from_le_bytes(
                    bs@.subrange(8 * j, 8 * j + 8),
                ),
        decreases n - k,
    {
        let chunk = slice_subrange(bs, 8 * k, 8 * k + 8);
        let w = u64_from_le_bytes(chunk);
        ws.push(w);
        k = k + 1;
    }
    proof {
        assert(ws@ =~= bytes_as_words(bs@));
    }
    Some(ws)
}

/// One mixing step of the word hash.
pub open spec fn hash_step(h: u64, w: u64) -> u64 {
    vstd::wrapping::u64_specs::wrapping_mul(h ^ w, HASH_PRIME)
}

/// Hash of the remaining words, starting from state `h`.
pub open spec fn hash_from(h: u64, ws: Seq<u64>) -> u64
    decreases ws.len(),
{
    if ws.len() == 0 {
        h
    } else {
        hash_from(hash_step(h, ws[0]), ws.drop_first())
    }
}

/// Deterministic structural hash of a word sequence: the content identity of
/// whatever those words encode.
pub open spec fn hash_words(ws: Seq<u64>) -> u64 {
    hash_from(HASH_BASIS, ws)
}

/// Compute the word hash.
pub fn hash_words_exec(ws: &Vec<u64>) -> (h: u64)
    ensures
        h == hash_words(ws@),
{
    let mut h: u64 = HASH_BASIS;
    let mut i: usize = 0;
    proof {
        assert(ws@.subrange(0, ws@.len() as int) =~= ws@);
    }
    while i < ws.len()
        invariant
            i <= ws.len(),
            hash_words(ws@) == hash_from(h, ws@.subrange(i as int, ws@.len() as int)),
        decreases ws.len() - i,
    {
        proof {
            let rest = ws@.subrange(i as int, ws@.len() as int);
            assert(rest.drop_first() =~= ws@.subrange(i + 1, ws@.len() as int));
            assert(rest[0] == ws@[i as int]);
        }
        h = (h ^ ws[i]).wrapping_mul(HASH_PRIME);
        i = i + 1;
    }
    proof {
        assert(ws@.subrange(ws@.len() as int, ws@.len() as int) =~= Seq::<u64>::empty());
    }
    h
}

/// Word-sequence equality.
pub fn words_eq(a: &Vec<u64>, b: &Vec<u64>) -> (r: bool)
    ensures
        r == (a@ == b@),
{
    if a.len() != b.len() {
        assert(a@ != b@);
        return false;
    }
    let mut i: usize = 0;
    while i < a.len()
        invariant
            i <= a.len(),
            a@.len() == b@.len(),
            forall|j: int| 0 <= j < i ==> a@[j] == b@[j],
        decreases a.len() - i,
    {
        if a[i] != b[i] {
            assert(a@ != b@);
            return false;
        }
        i = i + 1;
    }
    proof {
        assert(a@ =~= b@);
    }
    true
}

/// Copy of the word range `start..start + len`.
pub fn sub_words(v: &Vec<u64>, start: usize, len: usize) -> (r: Vec<u64>)
    requires
        start + len <= v@.len(),
    ensures
        r@ == v@.subrange(start as int, start as int + len as int),
{
    let mut r: Vec<u64> = Vec::new();
    let mut i: usize = 0;
    let vl = v.len();
    while i < len
        invariant
            i <= len,
            vl == v@.len(),
            start + len <= vl,
            r@ =~= v@.subrange(start as int, start as int + i as int),
        decreases len - i,
    {
        r.push(v[start + i]);
        proof {
            assert(r@ =~= v@.subrange(start as int, start as int + i as int + 1));
        }
        i = i + 1;
    }
    r
}

/// Reinterpret a signed coordinate as a word.
pub fn i64_to_word(x: i64) -> (w: u64)
    ensures
        w == x as u64,
{
    #[verifier::truncate]
    (x as u64)
}

/// Reinterpret a word as a signed coordinate.
pub fn word_to_i64(w: u64) -> (x: i64)
    ensures
        x == w as i64,
{
    #[verifier::truncate]
    (w as i64)
}

/// Reinterpreting a coordinate as a word and back is the identity.
pub proof fn lemma_i64_word_roundtrip(x: i64)
    ensures
        (x as u64) as i64 == x,
{
    assert((x as u64) as i64 == x) by (bit_vector);
}

} // verus!
