//! Bloom filters in storage: the bitmap of a run is a file of its own, and
//! a key is tested against it page by page, without loading the whole
//! bitmap.

use crate::bloom_filter::{
    admits, bit_is_set, filter_of, key_bit, lemma_filter_from_zeros, lemma_with_entries_join,
    with_entries, BloomFilter,
};
use crate::bloom_util::{
    bitmap_num_bits, get_bloom_page, num_hash_functions, page_bit_index, spec_bitmap_len,
    spec_num_hash_functions,
};
use crate::direct_io::{at_most, page_of};
use crate::file_interface::Storage;
use crate::filename;
use crate::hash::BloomHasher;
use crate::serde_entry::entries_from_bytes;
use crate::sst_util::{get_entries_at_page, lemma_page_entries, num_pages, run_file};
use crate::system_info::{spec_entries_per_page, valid_page_size};
use crate::types::{Entry, Key, Level, Page, Run, Size, StoreError};
use vstd::prelude::*;

verus! {

/// `bitmap` is a filter for `entries` at `bits_per_entry` bits each: it has
/// the size for them and lets the key of every entry pass.
pub open spec fn bloom_covers(bitmap: Seq<u8>, bits_per_entry: Size, entries: Seq<Entry>) -> bool {
    &&& bitmap.len() == spec_bitmap_len(entries.len() as usize, bits_per_entry)
    &&& forall|i: int|
        0 <= i < entries.len() ==> admits(
            bitmap,
            spec_num_hash_functions(bits_per_entry) as usize,
            (#[trigger] entries[i]).0,
        )
}

/// Byte `index` of a file is byte `index % page_size` of its page
/// `index / page_size`.
pub proof fn lemma_byte_in_page(bytes: Seq<u8>, index: int, page_size: int)
    requires
        page_size > 0,
        0 <= index < bytes.len(),
    ensures
        index % page_size < page_of(bytes, index / page_size, page_size).len(),
        page_of(bytes, index / page_size, page_size)[index % page_size] == bytes[index],
{
    let p = index / page_size;
    let b = index % page_size;
    vstd::arithmetic::div_mod::lemma_fundamental_div_mod(index, page_size);
    assert(p * page_size + b == index && (p + 1) * page_size > index && p * page_size >= 0)
        by (nonlinear_arith)
        requires
            index == page_size * p + b,
            0 <= b < page_size,
            p >= 0,
    ;
}

/// Whether the bitmap for `num_entries` entries at `bits_per_entry` bits
/// each can be measured in the machine's integers.
pub fn bitmap_fits(num_entries: Size, bits_per_entry: Size) -> (fits: bool)
    ensures
        fits == (num_entries * bits_per_entry + 7 <= usize::MAX),
{
    assert(num_entries * bits_per_entry >= 0) by (nonlinear_arith);
    match num_entries.checked_mul(bits_per_entry) {
        Some(bits) => bits <= usize::MAX - 7,
        None => false,
    }
}

/// Writes Bloom filters to storage and tests keys against stored filters.
pub struct BloomFilterIO {}

impl BloomFilterIO {
    /// Writes `bitmap` as the Bloom filter of run `run` of level `level`.
    pub fn write(storage: &mut Storage, db_name: &str, level: Level, run: Run, bitmap: &[u8]) -> (done:
        Result<(), StoreError>)
        requires
            old(storage).wf(),
        ensures
            done.is_ok(),
            final(storage).wf(),
            final(storage).files() == old(storage).files().insert(
                filename::spec_bloom_filter_path(db_name@, level, run),
                bitmap@,
            ),
            final(storage).spec_page_size() == old(storage).spec_page_size(),
            final(storage).spec_use_pool() == old(storage).spec_use_pool(),
            final(storage).pool_capacity() == old(storage).pool_capacity(),
    {
        let path = filename::bloom_filter_path(db_name, level, run);
        storage.write_file(path.as_str(), vstd::slice::slice_to_vec(bitmap));
        Ok(())
    }

    /// Reads the whole Bloom filter of a run of `num_entries` entries at
    /// `bits_per_entry` bits each, from a file that has the size of such a
    /// filter. Fails where the file is missing.
    pub fn read(
        storage: &Storage,
        db_name: &str,
        level: Level,
        run: Run,
        bits_per_entry: Size,
        num_entries: Size,
    ) -> (filter: Result<BloomFilter, StoreError>)
        requires
            storage.wf(),
            ({
                let path = filename::spec_bloom_filter_path(db_name@, level, run);
                let files = storage.files();
                files.contains_key(path) && num_entries * bits_per_entry + 7 <= usize::MAX
                    ==> files[path].len() == spec_bitmap_len(num_entries, bits_per_entry)
            }),
        ensures
            ({
                let path = filename::spec_bloom_filter_path(db_name@, level, run);
                let files = storage.files();
                match filter {
                    Ok(f) => files.contains_key(path) && num_entries * bits_per_entry + 7
                        <= usize::MAX && f.bitmap@ == files[path] && f.bitmap@.len()
                        == spec_bitmap_len(num_entries, bits_per_entry) && f.spec_hashes()
                        == spec_num_hash_functions(bits_per_entry) && f.wf(),
                    Err(e) => if !files.contains_key(path) {
                        e == StoreError::MissingFile
                    } else {
                        num_entries * bits_per_entry + 7 > usize::MAX && e == StoreError::TooLarge
                    },
                }
            }),
    {
        let path = filename::bloom_filter_path(db_name, level, run);
        let bytes = match storage.read_file(path.as_str()) {
            Ok(bytes) => bytes,
            Err(e) => {
                return Err(e);
            },
        };
        if !bitmap_fits(num_entries, bits_per_entry) {
            return Err(StoreError::TooLarge);
        }
        let mut filter = BloomFilter::new(num_entries, bits_per_entry);
        filter.bitmap = bytes;
        Ok(filter)
    }

    /// Builds the Bloom filter of a run from the entries of the run, read
    /// page by page, and writes it.
    pub fn write_from_sst(
        storage: &mut Storage,
        db_name: &str,
        level: Level,
        run: Run,
        bits_per_entry: Size,
        num_entries: Size,
    ) -> (done: Result<(), StoreError>)
        requires
            old(storage).wf(),
        ensures
            final(storage).wf(),
            final(storage).spec_page_size() == old(storage).spec_page_size(),
            final(storage).spec_use_pool() == old(storage).spec_use_pool(),
            final(storage).pool_capacity() == old(storage).pool_capacity(),
            done.is_err() ==> final(storage).files() == old(storage).files(),
            done.is_ok() ==> {
                let path = filename::spec_bloom_filter_path(db_name@, level, run);
                let bitmap = final(storage).files()[path];
                &&& final(storage).files() == old(storage).files().insert(path, bitmap)
                &&& bitmap.len() == spec_bitmap_len(num_entries, bits_per_entry)
                &&& run_ok(old(storage).files(), db_name@, level, run, num_entries) ==> bloom_covers(
                    bitmap,
                    bits_per_entry,
                    entries_from_bytes(
                        old(storage).files()[filename::spec_sst_path(db_name@, level, run)],
                    ),
                ) && filter_of(
                    bitmap,
                    spec_num_hash_functions(bits_per_entry) as usize,
                    entries_from_bytes(
                        old(storage).files()[filename::spec_sst_path(db_name@, level, run)],
                    ),
                )
            },
            run_ok(old(storage).files(), db_name@, level, run, num_entries) && num_entries
                * bits_per_entry + 7 <= usize::MAX ==> done.is_ok(),
    {
        if !bitmap_fits(num_entries, bits_per_entry) {
            return Err(StoreError::TooLarge);
        }
        proof {
            storage.lemma_page_size();
        }
        let page_size: usize = storage.page_size();
        let page_count: usize = num_pages(num_entries, page_size);
        let ghost files = storage.files();
        let ghost path = filename::spec_sst_path(db_name@, level, run);
        let ghost whole = entries_from_bytes(files[path]);
        let ghost sound = run_ok(files, db_name@, level, run, num_entries);
        let ghost per_page = spec_entries_per_page(page_size) as int;
        let mut filter = BloomFilter::new(num_entries, bits_per_entry);
        let ghost empty = filter.bitmap@;
        let mut page_index: usize = 0;
        proof {
            assert(0 * per_page == 0) by (nonlinear_arith);
            assert(whole.take(0).len() == 0);
            assert(with_entries(empty, filter.bitmap@, filter.spec_hashes(), whole.take(0)));
        }
        while page_index < page_count
            invariant
                forall|i: int| 0 <= i < empty.len() ==> empty[i] == 0,
                sound ==> with_entries(
                    empty,
                    filter.bitmap@,
                    filter.spec_hashes(),
                    whole.take(at_most(page_index * per_page, num_entries as int)),
                ),
                storage.wf(),
                storage.files() == files,
                files == old(storage).files(),
                storage.spec_page_size() == old(storage).spec_page_size(),
                storage.spec_page_size() == page_size,
                storage.spec_use_pool() == old(storage).spec_use_pool(),
                storage.pool_capacity() == old(storage).pool_capacity(),
                valid_page_size(page_size),
                per_page == spec_entries_per_page(page_size),
                path == filename::spec_sst_path(db_name@, level, run),
                whole == entries_from_bytes(files[path]),
                sound == run_ok(files, db_name@, level, run, num_entries),
                filter.wf(),
                filter.spec_hashes() == spec_num_hash_functions(bits_per_entry),
                filter.bitmap@.len() == spec_bitmap_len(num_entries, bits_per_entry),
                0 <= page_index <= page_count,
                sound ==> forall|i: int|
                    0 <= i < at_most(page_index * per_page, num_entries as int)
                        ==> filter.spec_contains((#[trigger] whole[i]).0),
            decreases page_count - page_index,
        {
            let entries = match get_entries_at_page(storage, db_name, level, run, page_index) {
                Ok(list) => list,
                Err(e) => {
                    proof {
                        if sound {
                            lemma_page_entries(files[path], page_index as int, page_size);
                        }
                    }
                    return Err(e);
                },
            };
            let ghost before = filter;
            filter.insert_entries(&entries);
            proof {
                if sound {
                    lemma_page_entries(files[path], page_index as int, page_size);
                    let n = num_entries as int;
                    let from = at_most(page_index * per_page, n);
                    let to = at_most((page_index + 1) * per_page, n);
                    assert((page_index + 1) * per_page == page_index * per_page + per_page
                        && page_index * per_page >= 0) by (nonlinear_arith)
                        requires
                            page_index >= 0,
                            per_page >= 1,
                    ;
                    assert(whole.len() == n);
                    lemma_with_entries_join(
                        empty,
                        before.bitmap@,
                        filter.bitmap@,
                        filter.spec_hashes(),
                        whole.take(from),
                        entries@,
                    );
                    assert(whole.take(from) + entries@ =~= whole.take(to));
                    assert forall|i: int| 0 <= i < to implies filter.spec_contains(
                        (#[trigger] whole[i]).0,
                    ) by {
                        if i < from {
                            assert(before.spec_contains(whole[i].0));
                        } else {
                            assert(entries@[i - from] == whole[i]);
                        }
                    }
                }
            }
            page_index += 1;
        }
        proof {
            if sound {
                assert(whole.len() == num_entries);
                assert(page_count * per_page >= num_entries);
                assert(whole.take(num_entries as int) =~= whole);
                lemma_filter_from_zeros(empty, filter.bitmap@, filter.spec_hashes(), whole);
            }
        }
        let done = Self::write(storage, db_name, level, run, filter.bitmap.as_slice());
        done
    }

    /// Whether the stored Bloom filter of a run of `num_entries` entries at
    /// `bits_per_entry` bits each lets `key` pass: false at the first bit
    /// of the key that is not set. Reads only the pages that hold the bits
    /// of the key.
    pub fn contains(
        storage: &mut Storage,
        db_name: &str,
        level: Level,
        run: Run,
        key: Key,
        bits_per_entry: Size,
        num_entries: Size,
    ) -> (maybe: Result<bool, StoreError>)
        requires
            old(storage).wf(),
        ensures
            final(storage).wf(),
            final(storage).files() == old(storage).files(),
            final(storage).spec_page_size() == old(storage).spec_page_size(),
            final(storage).spec_use_pool() == old(storage).spec_use_pool(),
            final(storage).pool_capacity() == old(storage).pool_capacity(),
            ({
                let path = filename::spec_bloom_filter_path(db_name@, level, run);
                let files = old(storage).files();
                let len = spec_bitmap_len(num_entries, bits_per_entry);
                &&& num_entries * bits_per_entry + 7 > usize::MAX ==> maybe == Err::<
                    bool,
                    StoreError,
                >(StoreError::TooLarge)
                &&& num_entries * bits_per_entry + 7 <= usize::MAX && len == 0 ==> maybe == Ok::<
                    bool,
                    StoreError,
                >(true)
                &&& num_entries * bits_per_entry + 7 <= usize::MAX && len > 0 && !files.contains_key(
                    path,
                ) ==> maybe == Err::<bool, StoreError>(StoreError::MissingFile)
                &&& num_entries * bits_per_entry + 7 <= usize::MAX && files.contains_key(path)
                    && files[path].len() == len ==> maybe == Ok::<bool, StoreError>(
                    admits(files[path], spec_num_hash_functions(bits_per_entry) as usize, key),
                )
            }),
    {
        if !bitmap_fits(num_entries, bits_per_entry) {
            return Err(StoreError::TooLarge);
        }
        proof {
            storage.lemma_page_size();
        }
        let hashes: usize = num_hash_functions(bits_per_entry);
        let num_bits: usize = bitmap_num_bits(num_entries, bits_per_entry);
        if num_bits == 0 {
            return Ok(true);
        }
        let page_size: usize = storage.page_size();
        let ghost files = storage.files();
        let ghost path = filename::spec_bloom_filter_path(db_name@, level, run);
        let ghost len = spec_bitmap_len(num_entries, bits_per_entry);
        let ghost sound = files.contains_key(path) && files[path].len() == len;
        let mut loaded: bool = false;
        let mut curr_page_index: Page = 0;
        let mut curr_page: Vec<u8> = Vec::new();
        let mut seed: usize = 0;
        while seed < hashes
            invariant
                storage.wf(),
                storage.files() == files,
                files == old(storage).files(),
                storage.spec_page_size() == old(storage).spec_page_size(),
                storage.spec_page_size() == page_size,
                storage.spec_use_pool() == old(storage).spec_use_pool(),
                storage.pool_capacity() == old(storage).pool_capacity(),
                valid_page_size(page_size),
                path == filename::spec_bloom_filter_path(db_name@, level, run),
                len == spec_bitmap_len(num_entries, bits_per_entry),
                len > 0,
                num_bits == len * 8,
                sound == (files.contains_key(path) && files[path].len() == len),
                hashes == spec_num_hash_functions(bits_per_entry),
                hashes >= 1,
                0 <= seed <= hashes,
                seed > 0 ==> files.contains_key(path),
                loaded ==> files.contains_key(path) && curr_page@ == page_of(
                    files[path],
                    curr_page_index as int,
                    page_size as int,
                ),
                sound ==> forall|s: int|
                    0 <= s < seed ==> bit_is_set(files[path], #[trigger] key_bit(len as nat, key, s)),
            decreases hashes - seed,
        {
            let bitmap_index: usize = BloomHasher::hash_key_to_index(key, seed as u64, num_bits);
            let (page_index, byte_index, bit) = page_bit_index(bitmap_index, page_size);
            if !loaded || page_index != curr_page_index {
                curr_page = match get_bloom_page(storage, db_name, level, run, page_index) {
                    Ok(page) => page,
                    Err(e) => {
                        return Err(e);
                    },
                };
                curr_page_index = page_index;
                loaded = true;
            }
            proof {
                if sound {
                    lemma_byte_in_page(files[path], bitmap_index as int / 8, page_size as int);
                    assert(key_bit(len as nat, key, seed as int) == bitmap_index);
                }
            }
            if byte_index >= curr_page.len() {
                return Err(StoreError::Corrupt);
            }
            if (curr_page[byte_index] & (1u8 << (bit as u8))) == 0 {
                proof {
                    if sound {
                        assert(!bit_is_set(files[path], key_bit(len as nat, key, seed as int)));
                    }
                }
                return Ok(false);
            }
            seed += 1;
        }
        proof {
            if sound {
                let bitmap = files[path];
                assert forall|s: int| 0 <= s < hashes implies bit_is_set(
                    bitmap,
                    #[trigger] key_bit(bitmap.len(), key, s),
                ) by {
                    assert(bit_is_set(bitmap, key_bit(len as nat, key, s)));
                }
                assert(admits(bitmap, hashes, key));
            }
        }
        Ok(true)
    }
}

/// The file of run `run` of level `level` is a run of `num_entries`
/// entries.
pub open spec fn run_ok(
    files: Map<Seq<char>, Seq<u8>>,
    db_name: Seq<char>,
    level: Level,
    run: Run,
    num_entries: Size,
) -> bool {
    let path = filename::spec_sst_path(db_name, level, run);
    files.contains_key(path) && run_file(files[path], num_entries as int)
}

} // verus!
