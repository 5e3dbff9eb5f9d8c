//! The keyed hash behind the Bloom filters: stable from one run of the
//! program to the next, so that a filter written once can be read again.

use crate::serde_entry::word_bytes;
use crate::types::Key;
use vstd::bytes::u64_to_le_bytes;
use vstd::prelude::*;

verus! {

/// The 64-bit XXH3 hash of `bytes` under `seed`.
pub uninterp spec fn xxh3_64(bytes: Seq<u8>, seed: u64) -> u64;

/// Calls `xxhash_rust::xxh3::xxh3_64_with_seed`, which computes the 64-bit
/// XXH3 hash of the input under the seed: a function of the two alone.
#[verifier::external_body]
fn xxh3_64_with_seed(bytes: &[u8], seed: u64) -> (hash: u64)
    ensures
        hash == xxh3_64(bytes@, seed),
{
    xxhash_rust::xxh3::xxh3_64_with_seed(bytes, seed)
}

/// The position that `hash` selects among `arr_len` positions.
pub open spec fn index_of_hash(hash: u64, arr_len: usize) -> usize {
    ((hash as usize) % arr_len) as usize
}

/// The position that the hash of `key` under `seed` selects among `arr_len`
/// positions.
pub open spec fn key_index(key: Key, seed: u64, arr_len: usize) -> usize {
    index_of_hash(xxh3_64(word_bytes(key), seed), arr_len)
}

/// The hash that places keys in Bloom filters.
pub struct BloomHasher;

impl BloomHasher {
    /// The hash of `bytes` under `seed`.
    pub fn hash(bytes: &[u8], seed: u64) -> (hash: u64)
        ensures
            hash == xxh3_64(bytes@, seed),
    {
        xxh3_64_with_seed(bytes, seed)
    }

    /// The position that the hash of `item` under `seed` selects among
    /// `arr_len` positions.
    pub fn hash_to_index(item: &[u8], seed: u64, arr_len: usize) -> (index: usize)
        requires
            arr_len > 0,
        ensures
            index == index_of_hash(xxh3_64(item@, seed), arr_len),
            index < arr_len,
    {
        let hash: u64 = Self::hash(item, seed);
        (#[verifier::truncate] (hash as usize)) % arr_len
    }

    /// The hash of the little-endian bytes of `key` under `seed`.
    pub fn hash_key(key: Key, seed: u64) -> (hash: u64)
        ensures
            hash == xxh3_64(word_bytes(key), seed),
    {
        let bytes = u64_to_le_bytes(#[verifier::truncate] (key as u64));
        Self::hash(bytes.as_slice(), seed)
    }

    /// The position that the hash of `key` under `seed` selects among
    /// `arr_len` positions.
    pub fn hash_key_to_index(key: Key, seed: u64, arr_len: usize) -> (index: usize)
        requires
            arr_len > 0,
        ensures
            index == key_index(key, seed, arr_len),
            index < arr_len,
    {
        let hash: u64 = Self::hash_key(key, seed);
        (#[verifier::truncate] (hash as usize)) % arr_len
    }
}

} // verus!
