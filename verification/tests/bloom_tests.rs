use lsm_store::bloom_filter::BloomFilter;
use lsm_store::bloom_io::{bitmap_fits, BloomFilterIO};
use lsm_store::bloom_util::{
    bit_index, bitmap_len, bitmap_num_bits, num_hash_functions, page_bit_index, BYTE_SIZE,
};
use lsm_store::array_sst::Sst;
use lsm_store::file_interface::Storage;
use lsm_store::hash::BloomHasher;
use lsm_store::system_info::page_size;
use lsm_store::types::StoreError;

#[test]
fn bloom_filter_test_bloom_filter_simple() {
    let mut bloom_filter = BloomFilter::new(10, 5);

    bloom_filter.insert(1);
    bloom_filter.insert(2);
    bloom_filter.insert(3);

    assert!(bloom_filter.contains(1));
    assert!(bloom_filter.contains(2));
    assert!(bloom_filter.contains(3));

    assert!(!bloom_filter.contains(4));
}

#[test]
fn bloom_filter_test_bloom_filter_false_positive() {
    let mut bloom_filter = BloomFilter::new(1, 1);
    bloom_filter.insert(1);
    bloom_filter.insert(2);
    bloom_filter.insert(3);
    bloom_filter.insert(4);
    bloom_filter.insert(5);
    bloom_filter.insert(6);
    bloom_filter.insert(7);
    bloom_filter.insert(8);

    assert!(bloom_filter.contains(9));
}

#[test]
fn bloom_filter_test_bloom_filter_reset() {
    let mut bloom_filter = BloomFilter::new(10, 5);

    bloom_filter.insert(1);
    bloom_filter.reset();

    assert!(!bloom_filter.contains(1));
}

#[test]
fn test_from_entries() {
    let entries = vec![(0, 0), (1, 1), (32, 32)];
    let bloom_filter = BloomFilter::from_entries(&entries, 5);

    assert!(bloom_filter.contains(0));
    assert!(bloom_filter.contains(32));

    assert!(!bloom_filter.contains(2));
}

#[test]
fn test_bitmap_indexing_conversion() {
    let bitmap_index = 21313;
    let (page_index, byte_index, bit_index) = page_bit_index(bitmap_index, page_size());
    assert_eq!(
        page_index * page_size() + byte_index * BYTE_SIZE + bit_index,
        bitmap_index
    )
}

#[test]
fn test() {
    let db_name = "test_bloom_io";
    let mut storage = Storage::new(page_size(), 1, 4, false);
    let level = 0;
    let run = 0;
    let bits_per_entry = 5;
    let entries = vec![(0, 0), (1001, 1001)];
    let num_entries = entries.len();

    Sst.write(&mut storage, db_name, level, run, &entries).unwrap();
    BloomFilterIO::write_from_sst(&mut storage, db_name, level, run, bits_per_entry, num_entries)
        .unwrap();

    let read_filter =
        BloomFilterIO::read(&storage, db_name, level, run, bits_per_entry, num_entries).unwrap();

    assert!(read_filter.contains(0));
    assert!(read_filter.contains(1001));
    assert!(!read_filter.contains(1002));

    let mut contains = |key| {
        BloomFilterIO::contains(
            &mut storage,
            db_name,
            level,
            run,
            key,
            bits_per_entry,
            entries.len(),
        )
        .unwrap()
    };

    assert!(contains(0));
    assert!(contains(1001));
    assert!(!contains(1002));
}

#[test]
fn every_inserted_key_passes() {
    let mut filter = BloomFilter::new(1000, 5);
    for key in -500..500 {
        filter.insert(key * 7919);
    }
    for key in -500..500 {
        assert!(filter.contains(key * 7919));
    }
}

#[test]
fn bitmap_sizes_round_up_to_bytes() {
    assert_eq!(bitmap_len(10, 5), 7);
    assert_eq!(bitmap_num_bits(10, 5), 56);
    assert_eq!(bitmap_len(0, 5), 0);
    assert_eq!(bitmap_len(8, 1), 1);
    assert_eq!(bitmap_len(9, 1), 2);
    assert_eq!(bit_index(21), (2, 5));
    assert_eq!(page_bit_index(8 * 4096 * 3 + 8 * 5 + 2, 4096), (3, 5, 2));
    assert!(bitmap_fits(10, 5));
    assert!(!bitmap_fits(usize::MAX, 2));
}

#[test]
fn number_of_hash_functions_follows_the_bits() {
    assert_eq!(num_hash_functions(0), 1);
    assert_eq!(num_hash_functions(1), 1);
    assert_eq!(num_hash_functions(2), 2);
    assert_eq!(num_hash_functions(5), 4);
    assert_eq!(num_hash_functions(10), 7);
    assert_eq!(num_hash_functions(100), 70);
}

#[test]
fn a_filter_without_bits_lets_every_key_pass() {
    let mut filter = BloomFilter::new(0, 5);
    assert!(filter.contains(1));
    filter.insert(2);
    assert!(filter.contains(3));
}

#[test]
fn the_hash_depends_on_the_seed_and_is_stable() {
    let key_bytes = 42i64.to_le_bytes();
    assert_eq!(BloomHasher::hash(&key_bytes, 0), BloomHasher::hash_key(42, 0));
    assert_ne!(BloomHasher::hash(&key_bytes, 0), BloomHasher::hash(&key_bytes, 1));
    assert_ne!(BloomHasher::hash(&key_bytes, 0), 42);
    assert_eq!(
        BloomHasher::hash_key_to_index(42, 3, 1000),
        BloomHasher::hash_to_index(&key_bytes, 3, 1000)
    );
    assert_eq!(
        BloomHasher::hash_to_index(&key_bytes, 3, 1000),
        (BloomHasher::hash(&key_bytes, 3) as usize) % 1000
    );
    // The 64-bit XXH3 hash of no bytes under seed 0.
    assert_eq!(BloomHasher::hash(&[], 0), 0x2D06800538D394C2);
}

#[test]
fn a_filter_that_is_not_stored_is_missing() {
    let mut storage = Storage::new(4096, 1, 4, true);
    BloomFilterIO::write(&mut storage, "db", 0, 0, &[0xff, 0x00]).unwrap();
    assert_eq!(
        BloomFilterIO::read(&storage, "db", 0, 0, 2, 8).map(|filter| filter.bitmap),
        Ok(vec![0xff, 0x00])
    );
    assert_eq!(
        BloomFilterIO::read(&storage, "db", 0, 1, 5, 100).err(),
        Some(StoreError::MissingFile)
    );
    assert_eq!(
        BloomFilterIO::contains(&mut storage, "db", 0, 1, 7, 5, 100),
        Err(StoreError::MissingFile)
    );
    assert_eq!(BloomFilterIO::contains(&mut storage, "db", 0, 1, 7, 5, 0), Ok(true));
    let filter = BloomFilterIO::read(&storage, "db", 0, 0, 2, 8).unwrap();
    assert_eq!(filter.bitmap, vec![0xff, 0x00]);
}

#[test]
fn the_bits_of_a_filter_are_the_bits_of_its_keys_and_no_others() {
    let entries: Vec<(i64, i64)> = (0..40).map(|i| (i * 7 - 100, i)).collect();
    let bits_per_entry = 5;
    let filter = BloomFilter::from_entries(&entries, bits_per_entry);
    let len = bitmap_len(entries.len(), bits_per_entry);
    assert_eq!(len, 25);
    let hashes = num_hash_functions(bits_per_entry);
    assert_eq!(hashes, 4);
    let mut expected = vec![0u8; len];
    for (key, _) in entries.iter() {
        for seed in 0..hashes as u64 {
            let index = BloomHasher::hash_key_to_index(*key, seed, len * 8);
            expected[index / 8] |= 1 << (index % 8);
        }
    }
    assert_eq!(filter.bitmap, expected);
    assert!(expected.iter().any(|byte| *byte != 0xff));

    // The stored filter of a run is the same bitmap, built page by page.
    let mut storage = Storage::new(64, 2, 4, true);
    Sst {}.write(&mut storage, "db", 0, 0, &entries).unwrap();
    BloomFilterIO::write_from_sst(&mut storage, "db", 0, 0, bits_per_entry, entries.len()).unwrap();
    let stored = BloomFilterIO::read(&storage, "db", 0, 0, bits_per_entry, entries.len()).unwrap();
    assert_eq!(stored.bitmap, expected);
}
