//! A Bloom filter over keys: a bitmap in which every inserted key sets one
//! bit for each hash function. A key whose bits are not all set was never
//! inserted.

use crate::bloom_util::{
    bit_index, bitmap_len, num_hash_functions, spec_bitmap_len, spec_num_hash_functions,
};
use crate::hash::{key_index, BloomHasher};
use crate::types::{Entry, Key};
use vstd::prelude::*;

verus! {

/// Whether bit `index` of `bitmap` is set; bit 0 of a byte is its lowest.
pub open spec fn bit_is_set(bitmap: Seq<u8>, index: int) -> bool {
    bitmap[index / 8] & (1u8 << ((index % 8) as u8)) != 0
}

/// The bit that `key` sets under hash function `seed` in a bitmap of
/// `len` bytes.
pub open spec fn key_bit(len: nat, key: Key, seed: int) -> int {
    key_index(key, seed as u64, (len * 8) as usize) as int
}

/// Whether a filter with this bitmap and `hashes` hash functions lets
/// `key` pass: every bit of the key is set. A filter without bits lets
/// every key pass.
pub open spec fn admits(bitmap: Seq<u8>, hashes: usize, key: Key) -> bool {
    bitmap.len() == 0 || forall|seed: int|
        0 <= seed < hashes ==> bit_is_set(bitmap, #[trigger] key_bit(bitmap.len(), key, seed))
}

/// `after` is `before` with the bits of `key` set in addition.
pub open spec fn with_key(before: Seq<u8>, after: Seq<u8>, hashes: usize, key: Key) -> bool {
    &&& after.len() == before.len()
    &&& forall|index: int|
        0 <= index < before.len() * 8 ==> (#[trigger] bit_is_set(after, index) <==> bit_is_set(
            before,
            index,
        ) || exists|seed: int|
            0 <= seed < hashes && index == #[trigger] key_bit(before.len(), key, seed))
}

proof fn lemma_set_bit(byte: u8, bit: u8, other: u8)
    requires
        bit < 8,
        other < 8,
    ensures
        (byte | (1u8 << bit)) & (1u8 << bit) != 0,
        other != bit ==> (((byte | (1u8 << bit)) & (1u8 << other) != 0) == (byte & (1u8 << other)
            != 0)),
        byte & (1u8 << other) != 0 ==> (byte | (1u8 << bit)) & (1u8 << other) != 0,
{
    assert((byte | (1u8 << bit)) & (1u8 << bit) != 0) by (bit_vector)
        requires
            bit < 8,
    ;
    assert(other != bit ==> (((byte | (1u8 << bit)) & (1u8 << other) != 0) == (byte & (1u8 << other)
        != 0))) by (bit_vector)
        requires
            bit < 8,
            other < 8,
    ;
    assert(byte & (1u8 << other) != 0 ==> (byte | (1u8 << bit)) & (1u8 << other) != 0)
        by (bit_vector)
        requires
            bit < 8,
            other < 8,
    ;
}

/// A key that was inserted passes, and so does every key that passed
/// before.
pub proof fn lemma_insert_keeps_admitted(
    before: Seq<u8>,
    after: Seq<u8>,
    hashes: usize,
    key: Key,
    other: Key,
)
    requires
        with_key(before, after, hashes, key),
        before.len() * 8 <= usize::MAX,
    ensures
        admits(after, hashes, key),
        admits(before, hashes, other) ==> admits(after, hashes, other),
{
    if before.len() > 0 {
        let len = before.len();
        assert forall|seed: int| 0 <= seed < hashes implies bit_is_set(
            after,
            #[trigger] key_bit(len, key, seed),
        ) by {
            let index = key_bit(len, key, seed);
            assert(0 <= index < len * 8);
        }
        if admits(before, hashes, other) {
            assert forall|seed: int| 0 <= seed < hashes implies bit_is_set(
                after,
                #[trigger] key_bit(len, other, seed),
            ) by {
                let index = key_bit(len, other, seed);
                assert(0 <= index < len * 8);
                assert(bit_is_set(before, index));
            }
        }
    }
}

/// Whether one of the keys of `entries` sets bit `index` in a bitmap of
/// `len` bytes under one of `hashes` hash functions.
pub open spec fn sets_bit(len: nat, hashes: usize, entries: Seq<Entry>, index: int) -> bool {
    exists|at: int, seed: int|
        0 <= at < entries.len() && 0 <= seed < hashes && index == #[trigger] key_bit(
            len,
            entries[at].0,
            seed,
        )
}

/// `after` is `before` with the bits of the keys of `entries` set in
/// addition.
pub open spec fn with_entries(before: Seq<u8>, after: Seq<u8>, hashes: usize, entries: Seq<Entry>) -> bool {
    &&& after.len() == before.len()
    &&& forall|index: int|
        0 <= index < before.len() * 8 ==> (#[trigger] bit_is_set(after, index) <==> bit_is_set(
            before,
            index,
        ) || sets_bit(before.len(), hashes, entries, index))
}

/// `bitmap` is the filter of `entries`: the bits that are set are the
/// bits of their keys.
pub open spec fn filter_of(bitmap: Seq<u8>, hashes: usize, entries: Seq<Entry>) -> bool {
    forall|index: int|
        0 <= index < bitmap.len() * 8 ==> (#[trigger] bit_is_set(bitmap, index) <==> sets_bit(
            bitmap.len(),
            hashes,
            entries,
            index,
        ))
}

/// Inserting one key is inserting the keys of one entry.
pub proof fn lemma_with_key_is_with_entries(
    before: Seq<u8>,
    after: Seq<u8>,
    hashes: usize,
    entry: Entry,
)
    requires
        with_key(before, after, hashes, entry.0),
    ensures
        with_entries(before, after, hashes, seq![entry]),
{
    let len = before.len();
    let one = seq![entry];
    assert forall|index: int| 0 <= index < len * 8 implies (#[trigger] bit_is_set(after, index)
        <==> bit_is_set(before, index) || sets_bit(len, hashes, one, index)) by {
        if sets_bit(len, hashes, one, index) {
            let (at, seed) = choose|at: int, seed: int|
                0 <= at < one.len() && 0 <= seed < hashes && index == #[trigger] key_bit(
                    len,
                    one[at].0,
                    seed,
                );
            assert(index == key_bit(len, entry.0, seed));
        }
        if exists|seed: int| 0 <= seed < hashes && index == #[trigger] key_bit(len, entry.0, seed) {
            let seed = choose|seed: int|
                0 <= seed < hashes && index == #[trigger] key_bit(len, entry.0, seed);
            assert(index == key_bit(len, one[0].0, seed));
        }
    }
}

/// Inserting the keys of some entries and then those of others is
/// inserting the keys of all of them.
pub proof fn lemma_with_entries_join(
    before: Seq<u8>,
    between: Seq<u8>,
    after: Seq<u8>,
    hashes: usize,
    first: Seq<Entry>,
    second: Seq<Entry>,
)
    requires
        with_entries(before, between, hashes, first),
        with_entries(between, after, hashes, second),
    ensures
        with_entries(before, after, hashes, first + second),
{
    let len = before.len();
    let all = first + second;
    assert forall|index: int| 0 <= index < len * 8 implies (#[trigger] bit_is_set(after, index)
        <==> bit_is_set(before, index) || sets_bit(len, hashes, all, index)) by {
        if sets_bit(len, hashes, first, index) {
            let (at, seed) = choose|at: int, seed: int|
                0 <= at < first.len() && 0 <= seed < hashes && index == #[trigger] key_bit(
                    len,
                    first[at].0,
                    seed,
                );
            assert(index == key_bit(len, all[at].0, seed));
        }
        if sets_bit(len, hashes, second, index) {
            let (at, seed) = choose|at: int, seed: int|
                0 <= at < second.len() && 0 <= seed < hashes && index == #[trigger] key_bit(
                    len,
                    second[at].0,
                    seed,
                );
            assert(index == key_bit(len, all[first.len() + at].0, seed));
        }
        if sets_bit(len, hashes, all, index) {
            let (at, seed) = choose|at: int, seed: int|
                0 <= at < all.len() && 0 <= seed < hashes && index == #[trigger] key_bit(
                    len,
                    all[at].0,
                    seed,
                );
            if at < first.len() {
                assert(index == key_bit(len, first[at].0, seed));
            } else {
                assert(index == key_bit(len, second[at - first.len()].0, seed));
            }
        }
    }
}

/// A bitmap of zeros with the bits of the keys of `entries` set is the
/// filter of `entries`.
pub proof fn lemma_filter_from_zeros(before: Seq<u8>, after: Seq<u8>, hashes: usize, entries: Seq<Entry>)
    requires
        with_entries(before, after, hashes, entries),
        forall|i: int| 0 <= i < before.len() ==> before[i] == 0,
    ensures
        filter_of(after, hashes, entries),
{
    assert forall|index: int| 0 <= index < after.len() * 8 implies (#[trigger] bit_is_set(
        after,
        index,
    ) <==> sets_bit(after.len(), hashes, entries, index)) by {
        let bit = (index % 8) as u8;
        assert(0u8 & (1u8 << bit) == 0) by (bit_vector);
        assert(before[index / 8] == 0);
    }
}

/// Bitmaps of one length with the same bits set are the same.
pub proof fn lemma_same_bits(one: Seq<u8>, other: Seq<u8>)
    requires
        one.len() == other.len(),
        forall|index: int|
            0 <= index < one.len() * 8 ==> (bit_is_set(one, index) <==> bit_is_set(other, index)),
    ensures
        one == other,
{
    assert forall|i: int| 0 <= i < one.len() implies one[i] == other[i] by {
        let a = one[i];
        let b = other[i];
        assert forall|bit: u8| bit < 8 implies ((a & (1u8 << bit) != 0) == (b & (1u8 << bit) != 0)) by {
            let index = i * 8 + bit;
            assert(index / 8 == i && index % 8 == bit as int);
            assert(bit_is_set(one, index) <==> bit_is_set(other, index));
        }
        assert((a & (1u8 << 0u8) != 0) == (b & (1u8 << 0u8) != 0));
        assert((a & (1u8 << 1u8) != 0) == (b & (1u8 << 1u8) != 0));
        assert((a & (1u8 << 2u8) != 0) == (b & (1u8 << 2u8) != 0));
        assert((a & (1u8 << 3u8) != 0) == (b & (1u8 << 3u8) != 0));
        assert((a & (1u8 << 4u8) != 0) == (b & (1u8 << 4u8) != 0));
        assert((a & (1u8 << 5u8) != 0) == (b & (1u8 << 5u8) != 0));
        assert((a & (1u8 << 6u8) != 0) == (b & (1u8 << 6u8) != 0));
        assert((a & (1u8 << 7u8) != 0) == (b & (1u8 << 7u8) != 0));
        assert(a == b) by (bit_vector)
            requires
                (a & (1u8 << 0u8) != 0) == (b & (1u8 << 0u8) != 0),
                (a & (1u8 << 1u8) != 0) == (b & (1u8 << 1u8) != 0),
                (a & (1u8 << 2u8) != 0) == (b & (1u8 << 2u8) != 0),
                (a & (1u8 << 3u8) != 0) == (b & (1u8 << 3u8) != 0),
                (a & (1u8 << 4u8) != 0) == (b & (1u8 << 4u8) != 0),
                (a & (1u8 << 5u8) != 0) == (b & (1u8 << 5u8) != 0),
                (a & (1u8 << 6u8) != 0) == (b & (1u8 << 6u8) != 0),
                (a & (1u8 << 7u8) != 0) == (b & (1u8 << 7u8) != 0),
        ;
    }
    assert(one =~= other);
}

/// There is one filter of given entries for each length and number of
/// hash functions.
pub proof fn lemma_filter_unique(one: Seq<u8>, other: Seq<u8>, hashes: usize, entries: Seq<Entry>)
    requires
        one.len() == other.len(),
        filter_of(one, hashes, entries),
        filter_of(other, hashes, entries),
    ensures
        one == other,
{
    lemma_same_bits(one, other);
}

/// The filter of entries lets the key of each of them pass.
pub proof fn lemma_filter_admits(bitmap: Seq<u8>, hashes: usize, entries: Seq<Entry>, at: int)
    requires
        filter_of(bitmap, hashes, entries),
        bitmap.len() * 8 <= usize::MAX,
        0 <= at < entries.len(),
    ensures
        admits(bitmap, hashes, entries[at].0),
{
    let len = bitmap.len();
    if len > 0 {
        assert forall|seed: int| 0 <= seed < hashes implies bit_is_set(
            bitmap,
            #[trigger] key_bit(len, entries[at].0, seed),
        ) by {
            let index = key_bit(len, entries[at].0, seed);
            assert(0 <= index < len * 8);
            assert(sets_bit(len, hashes, entries, index));
        }
    }
}

pub struct BloomFilter {
    pub bitmap: Vec<u8>,
    pub num_hash_functions: usize,
}

impl BloomFilter {
    pub open spec fn spec_hashes(&self) -> usize {
        self.num_hash_functions
    }

    /// The bits of the bitmap can be counted.
    pub open spec fn wf(&self) -> bool {
        self.bitmap@.len() * 8 <= usize::MAX
    }

    /// Whether the filter lets `key` pass.
    pub open spec fn spec_contains(&self, key: Key) -> bool {
        admits(self.bitmap@, self.spec_hashes(), key)
    }

    /// An empty filter for `num_entries` entries at `bits_per_entry` bits
    /// each.
    pub fn new(num_entries: usize, bits_per_entry: usize) -> (filter: Self)
        requires
            num_entries * bits_per_entry + 7 <= usize::MAX,
        ensures
            filter.wf(),
            filter.spec_hashes() == spec_num_hash_functions(bits_per_entry),
            filter.bitmap@.len() == spec_bitmap_len(num_entries, bits_per_entry),
            forall|i: int| 0 <= i < filter.bitmap@.len() ==> filter.bitmap@[i] == 0,
    {
        Self {
            num_hash_functions: num_hash_functions(bits_per_entry),
            bitmap: Self::create_bitmap(num_entries, bits_per_entry),
        }
    }

    /// An empty filter at `bits_per_entry` bits for each of `num_entries`
    /// entries.
    pub fn new_with_bits_per_entry(bits_per_entry: usize, num_entries: usize) -> (filter: Self)
        requires
            num_entries * bits_per_entry + 7 <= usize::MAX,
        ensures
            filter.wf(),
            filter.spec_hashes() == spec_num_hash_functions(bits_per_entry),
            filter.bitmap@.len() == spec_bitmap_len(num_entries, bits_per_entry),
            forall|i: int| 0 <= i < filter.bitmap@.len() ==> filter.bitmap@[i] == 0,
    {
        Self::new(num_entries, bits_per_entry)
    }

    /// The filter with the bitmap `bit_vec`, at `bits_per_entry` bits for
    /// each entry.
    pub fn new_from_bit_vec(bit_vec: Vec<u8>, bits_per_entry: usize) -> (filter: Self)
        ensures
            filter.bitmap@ == bit_vec@,
            filter.spec_hashes() == spec_num_hash_functions(bits_per_entry),
    {
        Self { num_hash_functions: num_hash_functions(bits_per_entry), bitmap: bit_vec }
    }

    /// A filter for `entries` at `bits_per_entry` bits each, with the keys
    /// of all the entries inserted.
    pub fn from_entries(entries: &Vec<Entry>, bits_per_entry: usize) -> (filter: Self)
        requires
            entries@.len() * bits_per_entry + 7 <= usize::MAX,
        ensures
            filter.wf(),
            filter.spec_hashes() == spec_num_hash_functions(bits_per_entry),
            filter.bitmap@.len() == spec_bitmap_len(entries@.len() as usize, bits_per_entry),
            filter_of(filter.bitmap@, filter.spec_hashes(), entries@),
            forall|i: int| 0 <= i < entries@.len() ==> filter.spec_contains((#[trigger] entries@[i]).0),
    {
        let mut filter = Self::new(entries.len(), bits_per_entry);
        let ghost empty = filter.bitmap@;
        filter.insert_entries(entries);
        proof {
            lemma_filter_from_zeros(empty, filter.bitmap@, filter.spec_hashes(), entries@);
        }
        filter
    }

    /// Inserts `key`: sets its bit under every hash function. A filter
    /// without bits stays as it is.
    pub fn insert(&mut self, key: Key)
        requires
            old(self).wf(),
        ensures
            final(self).wf(),
            final(self).spec_hashes() == old(self).spec_hashes(),
            with_key(old(self).bitmap@, final(self).bitmap@, old(self).spec_hashes(), key),
            final(self).spec_contains(key),
            forall|other: Key| old(self).spec_contains(other) ==> final(self).spec_contains(other),
    {
        let len: usize = self.bitmap.len();
        if len > 0 {
            let hashes: u64 = self.num_hash_functions as u64;
            let mut i: u64 = 0;
            while i < hashes
                invariant
                    0 <= i <= hashes,
                    hashes == self.num_hash_functions,
                    self.num_hash_functions == old(self).num_hash_functions,
                    len == self.bitmap@.len(),
                    len == old(self).bitmap@.len(),
                    len > 0,
                    len * 8 <= usize::MAX,
                    forall|index: int|
                        0 <= index < len * 8 ==> (#[trigger] bit_is_set(self.bitmap@, index)
                            <==> bit_is_set(old(self).bitmap@, index) || exists|seed: int|
                            0 <= seed < i && index == #[trigger] key_bit(len as nat, key, seed)),
                decreases hashes - i,
            {
                let (byte_index, bit) = self.hash_to_index(key, i);
                let ghost before = self.bitmap@;
                let ghost target = key_bit(len as nat, key, i as int);
                let byte: u8 = self.bitmap[byte_index];
                self.bitmap[byte_index] = byte | (1u8 << (bit as u8));
                proof {
                    assert forall|index: int| 0 <= index < len * 8 implies (#[trigger] bit_is_set(
                        self.bitmap@,
                        index,
                    ) <==> bit_is_set(old(self).bitmap@, index) || exists|seed: int|
                        0 <= seed < i + 1 && index == #[trigger] key_bit(len as nat, key, seed)) by {
                        lemma_set_bit(byte, bit as u8, (index % 8) as u8);
                        if index / 8 == byte_index {
                            if index % 8 == bit {
                                assert(index == target);
                            }
                        } else {
                            assert(self.bitmap@[index / 8] == before[index / 8]);
                        }
                        if bit_is_set(before, index) {
                            if !bit_is_set(old(self).bitmap@, index) {
                                let seed = choose|seed: int|
                                    0 <= seed < i && index == #[trigger] key_bit(len as nat, key, seed);
                                assert(0 <= seed < i + 1);
                            }
                        }
                    }
                }
                i += 1;
            }
        }
        proof {
            assert(with_key(old(self).bitmap@, self.bitmap@, old(self).spec_hashes(), key));
            assert forall|other: Key| old(self).spec_contains(other) implies self.spec_contains(
                other,
            ) by {
                lemma_insert_keeps_admitted(
                    old(self).bitmap@,
                    self.bitmap@,
                    old(self).spec_hashes(),
                    key,
                    other,
                );
            }
            lemma_insert_keeps_admitted(
                old(self).bitmap@,
                self.bitmap@,
                old(self).spec_hashes(),
                key,
                key,
            );
        }
    }

    /// Inserts the keys of `entries`.
    pub fn insert_entries(&mut self, entries: &Vec<Entry>)
        requires
            old(self).wf(),
        ensures
            final(self).wf(),
            final(self).spec_hashes() == old(self).spec_hashes(),
            final(self).bitmap@.len() == old(self).bitmap@.len(),
            with_entries(old(self).bitmap@, final(self).bitmap@, old(self).spec_hashes(), entries@),
            forall|i: int| 0 <= i < entries@.len() ==> final(self).spec_contains(
                (#[trigger] entries@[i]).0,
            ),
            forall|other: Key| old(self).spec_contains(other) ==> final(self).spec_contains(other),
    {
        let mut i: usize = 0;
        proof {
            assert(entries@.take(0).len() == 0);
            assert(with_entries(
                old(self).bitmap@,
                self.bitmap@,
                old(self).spec_hashes(),
                entries@.take(0),
            ));
        }
        while i < entries.len()
            invariant
                0 <= i <= entries@.len(),
                self.wf(),
                self.spec_hashes() == old(self).spec_hashes(),
                self.bitmap@.len() == old(self).bitmap@.len(),
                with_entries(
                    old(self).bitmap@,
                    self.bitmap@,
                    old(self).spec_hashes(),
                    entries@.take(i as int),
                ),
                forall|j: int| 0 <= j < i ==> self.spec_contains((#[trigger] entries@[j]).0),
                forall|other: Key| old(self).spec_contains(other) ==> self.spec_contains(other),
            decreases entries@.len() - i,
        {
            let ghost between = self.bitmap@;
            self.insert(entries[i].0);
            proof {
                let entry = entries@[i as int];
                lemma_with_key_is_with_entries(between, self.bitmap@, self.spec_hashes(), entry);
                lemma_with_entries_join(
                    old(self).bitmap@,
                    between,
                    self.bitmap@,
                    self.spec_hashes(),
                    entries@.take(i as int),
                    seq![entry],
                );
                assert(entries@.take(i as int) + seq![entry] =~= entries@.take(i + 1));
            }
            i += 1;
        }
        proof {
            assert(entries@.take(i as int) =~= entries@);
        }
    }

    /// Whether `key` may have been inserted: false means that it was not.
    pub fn contains(&self, key: Key) -> (maybe: bool)
        requires
            self.wf(),
        ensures
            maybe == self.spec_contains(key),
    {
        let len: usize = self.bitmap.len();
        if len == 0 {
            return true;
        }
        let hashes: u64 = self.num_hash_functions as u64;
        let mut i: u64 = 0;
        while i < hashes
            invariant
                0 <= i <= hashes,
                hashes == self.num_hash_functions,
                len == self.bitmap@.len(),
                len > 0,
                len * 8 <= usize::MAX,
                forall|seed: int|
                    0 <= seed < i ==> bit_is_set(self.bitmap@, #[trigger] key_bit(len as nat, key, seed)),
            decreases hashes - i,
        {
            let (byte_index, bit) = self.hash_to_index(key, i);
            if (self.bitmap[byte_index] & (1u8 << (bit as u8))) == 0 {
                proof {
                    assert(!bit_is_set(self.bitmap@, key_bit(len as nat, key, i as int)));
                }
                return false;
            }
            i += 1;
        }
        true
    }

    /// Clears every bit.
    pub fn reset(&mut self)
        ensures
            final(self).spec_hashes() == old(self).spec_hashes(),
            final(self).bitmap@.len() == old(self).bitmap@.len(),
            forall|i: int| 0 <= i < final(self).bitmap@.len() ==> final(self).bitmap@[i] == 0,
    {
        let len: usize = self.bitmap.len();
        self.bitmap = zeros(len);
    }

    /// A bitmap of zeros for `num_entries` entries at `bits_per_entry` bits
    /// each.
    pub fn create_bitmap(num_entries: usize, bits_per_entry: usize) -> (bitmap: Vec<u8>)
        requires
            num_entries * bits_per_entry + 7 <= usize::MAX,
        ensures
            bitmap@.len() == spec_bitmap_len(num_entries, bits_per_entry),
            bitmap@.len() * 8 <= usize::MAX,
            forall|i: int| 0 <= i < bitmap@.len() ==> bitmap@[i] == 0,
    {
        let num_bytes: usize = bitmap_len(num_entries, bits_per_entry);
        zeros(num_bytes)
    }

    /// Byte and bit within the byte that `key` selects under hash function
    /// `seed`.
    pub fn hash_to_index(&self, key: Key, seed: u64) -> (position: (usize, usize))
        requires
            self.wf(),
            self.bitmap@.len() > 0,
        ensures
            position.0 == key_bit(self.bitmap@.len(), key, seed as int) / 8,
            position.1 == key_bit(self.bitmap@.len(), key, seed as int) % 8,
            position.0 < self.bitmap@.len(),
            position.1 < 8,
    {
        let index = BloomHasher::hash_key_to_index(key, seed, self.bitmap.len() * 8);
        bit_index(index)
    }
}

/// `len` bytes of zero.
pub fn zeros(len: usize) -> (bytes: Vec<u8>)
    ensures
        bytes@.len() == len,
        forall|i: int| 0 <= i < len ==> bytes@[i] == 0,
{
    let mut bytes: Vec<u8> = Vec::new();
    while bytes.len() < len
        invariant
            bytes@.len() <= len,
            forall|i: int| 0 <= i < bytes@.len() ==> bytes@[i] == 0,
        decreases len - bytes@.len(),
    {
        bytes.push(0u8);
    }
    bytes
}

} // verus!
