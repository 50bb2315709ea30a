//! The 32-bit Murmur2 hash used to place terms in the table.

use vstd::prelude::*;

verus! {

/// Seed combined with the input length to form the initial state.
pub const SEED: u32 = 3_242_157_231u32;

/// Multiplier of every mixing step.
pub const M: u32 = 0x5bd1_e995u32;

/// The little-endian 32-bit word made of the four bytes of `key` that start at `at`.
pub open spec fn word_at(key: Seq<u8>, at: int) -> u32
    recommends
        0 <= at,
        at + 4 <= key.len(),
{
    (key[at] as u32) | ((key[at + 1] as u32) << 8) | ((key[at + 2] as u32) << 16) | ((key[at
        + 3] as u32) << 24)
}

/// One mixing step: scrambles the word `k` and folds it into the state `h`.
pub open spec fn mix(h: u32, k: u32) -> u32 {
    let k1 = k.wrapping_mul(M);
    let k2 = k1 ^ (k1 >> 24);
    let k3 = k2.wrapping_mul(M);
    h.wrapping_mul(M) ^ k3
}

/// The state after the first `n` full words of `key` have been mixed in.
/// The state starts as the seed combined with the length of `key`, of which
/// the low 32 bits count.
pub open spec fn fold_words(key: Seq<u8>, n: nat) -> u32
    recommends
        4 * n <= key.len(),
    decreases n,
{
    if n == 0 {
        SEED ^ (key.len() as u32)
    } else {
        mix(fold_words(key, (n - 1) as nat), word_at(key, 4 * (n - 1)))
    }
}

/// Folds the one to three bytes that follow the last full word into `h`;
/// with no such byte the state is left as it is.
pub open spec fn fold_tail(h: u32, tail: Seq<u8>) -> u32
    recommends
        tail.len() < 4,
{
    if tail.len() == 3 {
        let h1 = h ^ ((tail[2] as u32) << 16);
        let h2 = h1 ^ ((tail[1] as u32) << 8);
        let h3 = h2 ^ (tail[0] as u32);
        h3.wrapping_mul(M)
    } else if tail.len() == 2 {
        let h1 = h ^ ((tail[1] as u32) << 8);
        let h2 = h1 ^ (tail[0] as u32);
        h2.wrapping_mul(M)
    } else if tail.len() == 1 {
        let h1 = h ^ (tail[0] as u32);
        h1.wrapping_mul(M)
    } else {
        h
    }
}

/// The final avalanche.
pub open spec fn avalanche(h: u32) -> u32 {
    let h1 = h ^ (h >> 13);
    let h2 = h1.wrapping_mul(M);
    h2 ^ (h2 >> 15)
}

/// The hash of a byte string: the length-seeded state, every full word mixed
/// in from the front, then the trailing bytes, then the avalanche.
pub open spec fn hash_of(key: Seq<u8>) -> u32 {
    let words = key.len() / 4;
    avalanche(fold_tail(fold_words(key, words), key.subrange(4 * words as int, key.len() as int)))
}

/// Two byte strings that end alike hash alike over that ending, whatever
/// stands before it: the hash of the ending is that of its bytes alone.
pub proof fn lemma_shared_suffix(before_a: Seq<u8>, before_b: Seq<u8>, ending: Seq<u8>)
    ensures
        hash_of(
            (before_a + ending).subrange(before_a.len() as int, (before_a + ending).len() as int),
        ) == hash_of(ending),
        hash_of(
            (before_b + ending).subrange(before_b.len() as int, (before_b + ending).len() as int),
        ) == hash_of(ending),
{
    assert((before_a + ending).subrange(before_a.len() as int, (before_a + ending).len() as int)
        =~= ending);
    assert((before_b + ending).subrange(before_b.len() as int, (before_b + ending).len() as int)
        =~= ending);
}

/// Hashes `key`. Only the bytes of `key` are read, so equal byte strings
/// always hash alike.
pub fn murmurhash2(key: &[u8]) -> (hash: u32)
    ensures
        hash == hash_of(key@),
{
    let len: usize = key.len();
    let num_blocks: usize = len / 4;
    let mut h: u32 = SEED ^ (#[verifier::truncate] (len as u32));
    let mut block: usize = 0;
    while block < num_blocks
        invariant
            len == key@.len(),
            num_blocks == len / 4,
            block <= num_blocks,
            h == fold_words(key@, block as nat),
        decreases num_blocks - block,
    {
        let at: usize = 4 * block;
        let mut k: u32 = (key[at] as u32) | ((key[at + 1] as u32) << 8) | ((key[at + 2] as u32)
            << 16) | ((key[at + 3] as u32) << 24);
        k = k.wrapping_mul(M);
        k ^= k >> 24;
        k = k.wrapping_mul(M);
        h = h.wrapping_mul(M);
        h ^= k;
        block += 1;
    }
    let start: usize = 4 * num_blocks;
    let remaining: usize = len - start;
    let ghost tail = key@.subrange(start as int, len as int);
    if remaining == 3 {
        assert(tail[2] == key@[start + 2]);
        assert(tail[1] == key@[start + 1]);
        assert(tail[0] == key@[start as int]);
        h ^= (key[start + 2] as u32) << 16;
        h ^= (key[start + 1] as u32) << 8;
        h ^= key[start] as u32;
        h = h.wrapping_mul(M);
    } else if remaining == 2 {
        assert(tail[1] == key@[start + 1]);
        assert(tail[0] == key@[start as int]);
        h ^= (key[start + 1] as u32) << 8;
        h ^= key[start] as u32;
        h = h.wrapping_mul(M);
    } else if remaining == 1 {
        assert(tail[0] == key@[start as int]);
        h ^= key[start] as u32;
        h = h.wrapping_mul(M);
    }
    h ^= h >> 13;
    h = h.wrapping_mul(M);
    h ^ (h >> 15)
}

} // verus!
