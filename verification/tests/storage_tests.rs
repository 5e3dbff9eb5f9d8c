use lsm_store::bloom_filter::BloomFilter;
use lsm_store::btree_info::{fanout, node_fanout, node_size};
use lsm_store::direct_io::Disk;
use lsm_store::file_interface::Storage;
use lsm_store::filename;
use lsm_store::hash_key;
use lsm_store::serde_entry;
use lsm_store::serde_util::nearest_min_write_size_multiple;
use lsm_store::system_info::{
    entries_per_page, is_valid_page_size, mimimum_write_size, min_write_size,
    num_entries_per_page, page_size, usable_page_size,
};
use lsm_store::types::StoreError;

#[test]
fn file_names_follow_the_layout() {
    assert_eq!(filename::config("db"), "db/config.bin");
    assert_eq!(filename::metadata("db"), "db/meta.bin");
    assert_eq!(filename::sst(7), "7.sst");
    assert_eq!(filename::sst_btree(12), "12.btree");
    assert_eq!(filename::bloom_filter(0), "0.bloom");
    assert_eq!(filename::sst_compaction(), "compaction.bin");
    assert_eq!(filename::lsm_level_directory("db", 3), "db/3/");
    assert_eq!(filename::sst_path("db", 3, 14), "db/3/14.sst");
    assert_eq!(filename::sst_btree_path("a/b", 0, 0), "a/b/0/0.btree");
    assert_eq!(filename::bloom_filter_path("db", 10, 100), "db/10/100.bloom");
    assert_eq!(filename::sst_compaction_path("db", 2), "db/2/compaction.bin");
    assert_eq!(
        filename::sst_path("db", usize::MAX, 1234567890),
        format!("db/{}/1234567890.sst", usize::MAX)
    );
    assert_eq!(hash_key::sst(&4, &5), "4_5");
    assert_eq!(hash_key::sst_page(&4, &5, &60), "4_5_60");
}

#[test]
fn page_geometry_follows_the_page_size() {
    assert!(is_valid_page_size(page_size()));
    assert_eq!(num_entries_per_page(), page_size() / 16);
    assert_eq!(mimimum_write_size(), page_size() / 8);
    assert_eq!(node_size(), page_size());
    assert_eq!(fanout(), page_size() / 8);
    assert_eq!(entries_per_page(4096), 256);
    assert_eq!(min_write_size(4096), 512);
    assert_eq!(node_fanout(4096), 512);
    assert!(!is_valid_page_size(0));
    assert!(!is_valid_page_size(8));
    assert!(!is_valid_page_size(4100));
    assert!(is_valid_page_size(16));
    assert_eq!(usable_page_size(16384), 16384);
    assert_eq!(usable_page_size(usize::MAX), 4096);
    assert_eq!(usable_page_size(0), 4096);
    assert_eq!(nearest_min_write_size_multiple(0, 4096), 0);
    assert_eq!(nearest_min_write_size_multiple(1, 4096), 512);
    assert_eq!(nearest_min_write_size_multiple(512, 4096), 512);
    assert_eq!(nearest_min_write_size_multiple(513, 4096), 1024);
}

#[test]
fn a_disk_keeps_files_by_path() {
    let mut disk = Disk::new();
    assert!(!disk.path_exists("a"));
    disk.write_file("a", vec![1, 2, 3, 4, 5]);
    disk.write_file("b", vec![9]);
    disk.append_file("a", &[6, 7]);
    disk.append_file("c", &[8]);
    assert_eq!(disk.file_count(), 3);
    assert_eq!(disk.read_file("a"), Ok(vec![1, 2, 3, 4, 5, 6, 7]));
    assert_eq!(disk.file_len("a"), Some(7));
    assert_eq!(disk.file_len("z"), None);
    assert_eq!(disk.read_page("a", 0, 4), Ok(vec![1, 2, 3, 4]));
    assert_eq!(disk.read_page("a", 1, 4), Ok(vec![5, 6, 7]));
    assert_eq!(disk.read_page("a", 2, 4), Ok(vec![]));
    assert_eq!(disk.read_page("a", usize::MAX, 4), Ok(vec![]));
    assert_eq!(disk.read_page("z", 0, 4), Err(StoreError::MissingFile));
    assert_eq!(disk.rename_file("a", "b"), Ok(()));
    assert_eq!(disk.read_file("b"), Ok(vec![1, 2, 3, 4, 5, 6, 7]));
    assert!(!disk.path_exists("a"));
    assert_eq!(disk.rename_file("a", "b"), Err(StoreError::MissingFile));
    assert_eq!(disk.remove_file("b"), Ok(()));
    assert_eq!(disk.remove_file("b"), Err(StoreError::MissingFile));
    assert_eq!(disk.file_count(), 1);
    assert_eq!(disk.file_at(0).path, "c");
}

#[test]
fn a_storage_serves_pages_that_follow_the_files() {
    for use_pool in [false, true] {
        let mut storage = Storage::new(16, 1, 2, use_pool);
        storage.write_file("f", (0..40).collect());
        assert_eq!(storage.get_page("f", 1), Ok((16..32).collect()));
        assert_eq!(storage.get_page("f", 2), Ok((32..40).collect()));
        assert_eq!(storage.get_page("f", 0), Ok((0..16).collect()));
        assert_eq!(storage.get_page("g", 0), Err(StoreError::MissingFile));
        assert!(storage.pool_len() <= 2);
        // A change of the file is seen at once.
        storage.write_file("f", vec![7; 20]);
        assert_eq!(storage.get_page("f", 1), Ok(vec![7; 4]));
        storage.append_file("f", &[8; 4]);
        assert_eq!(storage.get_page("f", 1), Ok(vec![7, 7, 7, 7, 8, 8, 8, 8]));
        assert_eq!(storage.rename_file("f", "g"), Ok(()));
        assert_eq!(storage.get_page("f", 1), Err(StoreError::MissingFile));
        assert_eq!(storage.get_page("g", 1), Ok(vec![7, 7, 7, 7, 8, 8, 8, 8]));
        assert_eq!(storage.rename_file("f", "g"), Err(StoreError::MissingFile));
        assert_eq!(storage.remove_file("g"), Ok(()));
        assert_eq!(storage.get_page("g", 1), Err(StoreError::MissingFile));
        assert_eq!(storage.remove_file("g"), Err(StoreError::MissingFile));
        assert_eq!(storage.page_size(), 16);
        storage.set_pool_capacity(1);
        storage.reset_pool(3, 5);
        storage.set_use_pool(!use_pool);
        assert_eq!(storage.read_file("g"), Err(StoreError::MissingFile));
        assert_eq!(storage.file_len("g"), None);
        assert_eq!(storage.into_disk().file_count(), 0);
    }
}

#[test]
fn a_page_of_a_file_is_deserialized() {
    let bytes = serde_entry::serialize(&[(1, 10), (2, 20), (3, 30), (4, 40), (5, 50)]);
    assert_eq!(serde_entry::deserialize_page(&bytes, 0, 32), Ok(vec![(1, 10), (2, 20)]));
    assert_eq!(serde_entry::deserialize_page(&bytes, 2, 32), Ok(vec![(5, 50)]));
    assert_eq!(serde_entry::deserialize_page(&bytes, 3, 32), Ok(vec![]));
    assert_eq!(
        serde_entry::deserialize_page(&bytes[..70], 2, 32),
        Err(StoreError::Corrupt)
    );
}

#[test]
fn a_filter_is_made_from_its_parts() {
    let filter = BloomFilter::new_with_bits_per_entry(5, 10);
    assert_eq!(filter.bitmap, vec![0u8; 7]);
    assert_eq!(filter.num_hash_functions, 4);
    let mut full = BloomFilter::from_entries(&vec![(3, 0), (4, 0)], 8);
    let copy = BloomFilter::new_from_bit_vec(full.bitmap.clone(), 8);
    assert!(copy.contains(3));
    assert!(copy.contains(4));
    assert_eq!(copy.num_hash_functions, full.num_hash_functions);
    full.insert_entries(&vec![(5, 0)]);
    assert!(full.contains(5));
    assert_eq!(full.hash_to_index(5, 0).0 < 2, true);
    assert_eq!(BloomFilter::create_bitmap(3, 8), vec![0u8; 3]);
}

#[test]
fn renaming_a_file_hands_its_frames_over() {
    let mut storage = Storage::new(16, 2, 8, true);
    storage.write_file("old", (0u8..48).collect());
    storage.write_file("other", vec![7u8; 16]);
    assert_eq!(storage.get_page("old", 0), Ok((0u8..16).collect::<Vec<u8>>()));
    assert_eq!(storage.get_page("old", 2), Ok((32u8..48).collect::<Vec<u8>>()));
    assert_eq!(storage.get_page("other", 0), Ok(vec![7u8; 16]));
    assert_eq!(storage.pool_len(), 3);
    assert_eq!(storage.rename_file("old", "new"), Ok(()));
    assert_eq!(storage.pool_len(), 3);
    assert_eq!(storage.get_page("old", 0), Err(StoreError::MissingFile));
    assert_eq!(storage.get_page("new", 2), Ok((32u8..48).collect::<Vec<u8>>()));
    assert_eq!(storage.pool_len(), 3);
    assert_eq!(storage.rename_file("old", "new"), Err(StoreError::MissingFile));
    assert_eq!(storage.remove_file("new"), Ok(()));
    assert_eq!(storage.pool_len(), 1);
}
