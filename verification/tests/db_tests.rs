use lsm_store::btree_info::fanout;
use lsm_store::db::{Config, Database, Metadata};
use lsm_store::file_interface::Storage;
use lsm_store::system_info::num_entries_per_page;
use lsm_store::types::{
    CompactionPolicy, Key, SstImplementation, SstSearchAlgorithm, StoreError, Value, INVALID_KEY,
    TOMBSTONE_VALUE,
};

fn part1_db_alterations(db: Database) -> Database {
    db.set_compaction_policy(CompactionPolicy::NoCompaction)
        .set_sst_size_ratio(2)
        .set_sst_implementation(SstImplementation::Array)
        .set_sst_search_algorithm(SstSearchAlgorithm::Default)
        .set_enable_buffer_pool(false)
        .set_buffer_pool_capacity(1)
        .unwrap()
        .set_buffer_pool_initial_size(1)
        .unwrap()
        .set_enable_bloom_filter(false)
        .set_bloom_filter_bits_per_entry(1)
}

fn part2_db_alterations(db: Database) -> Database {
    db.set_compaction_policy(CompactionPolicy::NoCompaction)
        .set_sst_size_ratio(2)
        .set_sst_implementation(SstImplementation::Btree)
        .set_sst_search_algorithm(SstSearchAlgorithm::Default)
        .set_enable_buffer_pool(true)
        .set_buffer_pool_capacity(10)
        .unwrap()
        .set_buffer_pool_initial_size(4)
        .unwrap()
        .set_enable_bloom_filter(false)
        .set_bloom_filter_bits_per_entry(1)
}

fn part3_db_alterations(db: Database) -> Database {
    db.set_compaction_policy(CompactionPolicy::Dovstoevsky)
        .set_sst_size_ratio(2)
        .set_sst_implementation(SstImplementation::Btree)
        .set_sst_search_algorithm(SstSearchAlgorithm::Default)
        .set_enable_buffer_pool(true)
        .set_buffer_pool_capacity(10)
        .unwrap()
        .set_buffer_pool_initial_size(4)
        .unwrap()
        .set_enable_bloom_filter(true)
        .set_bloom_filter_bits_per_entry(5)
}

fn setup_and_test_and_cleaup(
    test_name: &str,
    database_alterations: &mut dyn FnMut(Database) -> Database,
    test: &mut dyn FnMut(Database) -> Database,
) {
    let db_name = format!("{test_name}/test");
    let mut db = test(database_alterations(Database::open(&db_name).unwrap()));
    db.close();
    assert!(db.is_closed());
}

fn small_db_test(test_name: &str, database_alterations: &mut dyn FnMut(Database) -> Database) {
    let mut alterations =
        |db: Database| database_alterations(db).set_memtable_capacity(2).unwrap();
    let mut test = |mut db: Database| {
        db.put(0, 1).unwrap();
        assert_eq!(db.get(0), Ok(Some(1)));
        db.put(0, 2).unwrap();
        assert_eq!(db.get(0), Ok(Some(2)));
        db.put(10, 100).unwrap();
        db.put(20, 200).unwrap();
        db.put(0, 3).unwrap();
        assert_eq!(db.get(0), Ok(Some(3)));
        db.put(30, 300).unwrap();
        db.put(40, 400).unwrap();
        assert_eq!(db.get(0), Ok(Some(3)));
        db.put(0, 10).unwrap();

        if db.compaction_policy() == CompactionPolicy::NoCompaction {
            assert_eq!(db.sst_count(0), 3);
        }

        assert_eq!(db.get(0), Ok(Some(10)));
        assert_eq!(db.get(20), Ok(Some(200)));
        assert_eq!(db.get(10), Ok(Some(100)));
        assert_eq!(db.get(40), Ok(Some(400)));
        assert_eq!(db.get(30), Ok(Some(300)));
        assert_eq!(db.get(-1), Ok(None));
        assert_eq!(db.get(1), Ok(None));
        assert_eq!(db.get(300), Ok(None));
        assert_eq!(db.get(400), Ok(None));

        assert_eq!(db.scan(1, 19), Ok(vec![(10, 100)]));
        assert_eq!(db.scan(0, 19), Ok(vec![(0, 10), (10, 100)]));
        assert_eq!(db.scan(1, 20), Ok(vec![(10, 100), (20, 200)]));
        assert_eq!(db.scan(0, 20), Ok(vec![(0, 10), (10, 100), (20, 200)]));
        assert_eq!(
            db.scan(-1, 9999),
            Ok(vec![(0, 10), (10, 100), (20, 200), (30, 300), (40, 400)])
        );

        db.delete(30).unwrap();
        db.delete(20).unwrap();
        assert_eq!(db.get(30), Ok(None));
        assert_eq!(db.get(20), Ok(None));
        assert_eq!(db.get(0), Ok(Some(10)));
        assert_eq!(db.get(10), Ok(Some(100)));
        assert_eq!(db.get(40), Ok(Some(400)));

        assert_eq!(db.scan(1, 19), Ok(vec![(10, 100)]));
        assert_eq!(db.scan(0, 19), Ok(vec![(0, 10), (10, 100)]));
        assert_eq!(db.scan(1, 20), Ok(vec![(10, 100)]));
        assert_eq!(db.scan(0, 20), Ok(vec![(0, 10), (10, 100)]));
        assert_eq!(db.scan(-1, 9999), Ok(vec![(0, 10), (10, 100), (40, 400)]));

        db
    };
    setup_and_test_and_cleaup(test_name, &mut alterations, &mut test)
}

fn large_db_test(test_name: &str, database_alterations: &mut dyn FnMut(Database) -> Database) {
    let memtable_cap = 896;

    let mut alterations =
        |db: Database| database_alterations(db).set_memtable_capacity(memtable_cap).unwrap();
    let mut test = |mut db: Database| {
        let (min, max) = (-1000, 1000);
        let range = min..max + 1;
        let mut entries = Vec::<(Key, Value)>::new();

        for i in range.into_iter() {
            let entry = (i, i * 10);
            db.put(entry.0, entry.1).unwrap();
            entries.push(entry);
        }

        if db.compaction_policy() == CompactionPolicy::NoCompaction {
            assert_eq!(db.sst_count(0), entries.len() / memtable_cap);
        }
        for (key, value) in entries.iter() {
            assert_eq!(db.get(*key), Ok(Some(*value)), "key: {key}");
        }

        assert_eq!(db.get(min - 1000), Ok(None));
        assert_eq!(db.get(max + 1000), Ok(None));

        for i in 0..entries.len() {
            let slice = entries[..i + 1].to_vec();
            let scan = db.scan(entries.first().unwrap().0, entries[i].0).unwrap();
            assert_eq!(
                scan.len(),
                slice.len(),
                "scan range ({}, {}), scan results {:?}",
                entries.first().unwrap().0,
                entries[i].0,
                scan
            );
            assert_eq!(scan, slice);
        }

        for i in 0..entries.len() {
            let slice = entries[i..].to_vec();
            let scan = db.scan(entries[i].0, entries.last().unwrap().0).unwrap();
            assert_eq!(scan.len(), slice.len());
            assert_eq!(scan, slice);
        }

        for i in (0..entries.len()).step_by(57) {
            for j in (i..entries.len() - 1).step_by(37) {
                let slice = entries[i..j + 1].to_vec();
                let scan = db.scan(entries[i].0, entries[j].0).unwrap();
                assert_eq!(scan.len(), slice.len());
                assert_eq!(scan, slice);
            }
        }

        assert_eq!(db.scan(min - 1000, max + 1000), Ok(entries.clone()));

        let step = 3;
        for (key, value) in entries.iter().step_by(step) {
            db.put(*key, value * 2).unwrap();
        }
        for (i, (key, value)) in entries.iter().enumerate() {
            if i % step == 0 {
                assert_eq!(db.get(*key), Ok(Some(value * 2)));
            } else {
                assert_eq!(db.get(*key), Ok(Some(*value)));
            }
        }

        let delete_step = 3;
        for (key, _) in entries.iter().step_by(delete_step) {
            db.delete(*key).unwrap();
            assert_eq!(db.get(*key), Ok(None));
        }

        let filtered: Vec<(Key, Value)> = entries
            .iter()
            .enumerate()
            .filter(|&(i, _)| i % delete_step != 0)
            .map(|(_, v)| v.to_owned())
            .collect();
        let slice = &filtered;
        let scan = db
            .scan(entries.first().unwrap().0, entries.last().unwrap().0)
            .unwrap();
        assert_eq!(scan.len(), slice.len());
        assert_eq!(scan, slice.to_vec());

        db
    };

    setup_and_test_and_cleaup(test_name, &mut alterations, &mut test)
}

fn multi_page_btree_single_sst_db_test(
    test_name: &str,
    database_alterations: &mut dyn FnMut(Database) -> Database,
) {
    let memtable_cap = fanout().pow(2) + 1;

    let mut alterations =
        |db: Database| database_alterations(db).set_memtable_capacity(memtable_cap).unwrap();
    let mut test = |mut db: Database| {
        let (min, max) = (0, memtable_cap as i64);
        let range = min..max + 1;
        let mut entries = Vec::<(Key, Value)>::new();

        for i in range.into_iter() {
            let entry = (i, i * 10);
            db.put(entry.0, entry.1).unwrap();
            entries.push(entry);
        }

        assert_eq!(db.sst_count(0), 1);

        assert_eq!(db.get(min - 1000), Ok(None));
        assert_eq!(db.get(max + 1000), Ok(None));

        for (key, value) in entries.iter() {
            assert_eq!(db.get(*key), Ok(Some(*value)), "key: {key}");
        }

        let scan_range = (entries.first().unwrap().0, entries.last().unwrap().0);
        let scan = db.scan(scan_range.0, scan_range.1).unwrap();
        assert_eq!(
            scan.len(),
            entries.len(),
            "scan range ({}, {})",
            scan_range.0,
            scan_range.1
        );
        assert_eq!(scan, entries);

        assert_eq!(db.scan(min - 1000, max + 1000), Ok(entries.clone()));

        let step = 3;
        for (key, value) in entries.iter().step_by(step) {
            db.put(*key, value * 2).unwrap();
        }
        for (i, (key, value)) in entries.iter().enumerate() {
            if i % step == 0 {
                assert_eq!(db.get(*key), Ok(Some(value * 2)));
            } else {
                assert_eq!(db.get(*key), Ok(Some(*value)));
            }
        }

        let delete_step = step;
        for (key, _) in entries.iter().step_by(delete_step) {
            db.delete(*key).unwrap();
            assert_eq!(db.get(*key), Ok(None));
        }

        let filtered: Vec<(Key, Value)> = entries
            .iter()
            .enumerate()
            .filter(|&(i, _)| i % delete_step != 0)
            .map(|(_, v)| v.to_owned())
            .collect();
        let slice = &filtered;
        let scan = db
            .scan(entries.first().unwrap().0, entries.last().unwrap().0)
            .unwrap();
        assert_eq!(scan.len(), slice.len());
        assert_eq!(scan, slice.to_vec());

        db
    };

    setup_and_test_and_cleaup(test_name, &mut alterations, &mut test)
}

#[test]
fn part_1_test_small() {
    small_db_test("part1_small_db_test", &mut part1_db_alterations);
}

#[test]
fn part1_test_large() {
    large_db_test("part1_large_db_test", &mut part1_db_alterations);
}

#[test]
fn part_2_test_small() {
    small_db_test("part2_small_db_test", &mut part2_db_alterations);
}

#[test]
fn part2_test_large() {
    large_db_test("part2_large_db_test", &mut part2_db_alterations);
}

#[test]
fn part2_test_multi_page_btree_single_sst() {
    multi_page_btree_single_sst_db_test(
        "part2_multi_page_btree_single_sst_db_test",
        &mut part2_db_alterations,
    );
}

#[test]
fn part_3_test_small() {
    small_db_test("part3_small_db_test", &mut part3_db_alterations);
}

#[test]
fn part3_test_large() {
    large_db_test("part3_large_db_test", &mut part3_db_alterations);
}

#[test]
fn reserved_inputs_and_bad_names_are_rejected() {
    assert_eq!(Database::open("").err(), Some(StoreError::InvalidInput));
    assert_eq!(Database::open("a b").err(), Some(StoreError::InvalidInput));
    assert_eq!(Database::open("tab\tname").err(), Some(StoreError::InvalidInput));
    let mut db = Database::open("db").unwrap();
    assert_eq!(db.name(), "db");
    assert_eq!(db.put(1, TOMBSTONE_VALUE), Err(StoreError::InvalidInput));
    assert_eq!(db.put(INVALID_KEY, 1), Err(StoreError::InvalidInput));
    assert_eq!(db.get(1), Ok(None));
    assert_eq!(db.put(1, i64::MAX), Ok(()));
    assert_eq!(db.put(i64::MAX, i64::MIN + 1), Ok(()));
    assert_eq!(
        db.scan(i64::MIN, i64::MAX),
        Ok(vec![(1, i64::MAX), (i64::MAX, i64::MIN + 1)])
    );
    let db = db.set_memtable_capacity(0);
    assert_eq!(db.err(), Some(StoreError::InvalidInput));
    let db = Database::open("db").unwrap();
    assert_eq!(
        db.set_buffer_pool_capacity(0).err(),
        Some(StoreError::InvalidInput)
    );
    let db = Database::open("db").unwrap();
    assert_eq!(
        db.set_buffer_pool_initial_size(0).err(),
        Some(StoreError::InvalidInput)
    );
    let db = Database::open("db").unwrap();
    assert_eq!(
        db.set_buffer_pool_initial_size(usize::MAX).err(),
        Some(StoreError::TooLarge)
    );
    let db = Database::open("db").unwrap();
    assert_eq!(
        db.set_memtable_capacity_mb(usize::MAX).err(),
        Some(StoreError::TooLarge)
    );
}

#[test]
fn a_new_database_has_the_default_knobs() {
    let db = Database::open("defaults").unwrap();
    assert_eq!(db.memtable_capacity(), num_entries_per_page());
    assert_eq!(db.sst_size_ratio(), 2);
    assert_eq!(db.sst_implementation(), SstImplementation::Array);
    assert_eq!(db.sst_search_algorithm(), SstSearchAlgorithm::Default);
    assert!(db.enable_buffer_pool());
    assert_eq!(db.buffer_pool_capacity(), 2560);
    assert_eq!(db.buffer_pool_initial_size(), 97);
    assert_eq!(db.compaction_policy(), CompactionPolicy::NoCompaction);
    assert!(db.enable_bloom_filter());
    assert_eq!(db.bloom_filter_bits_per_entry(), 5);
    assert_eq!(db.entry_counts(), &vec![Vec::<usize>::new()]);
    assert_eq!(Metadata::new().entry_counts, vec![Vec::<usize>::new()]);
    assert_eq!(Config::new(4096).memtable_capacity, 256);
    let db = db.set_memtable_capacity_mb(1).unwrap();
    assert_eq!(db.memtable_capacity(), 65536);
    let db = db.set_buffer_pool_capacity_mb(1).unwrap();
    assert_eq!(db.buffer_pool_capacity(), (1 << 20) / db.page_size());
    let db = db.set_buffer_pool_initial_size_mb(1).unwrap();
    assert_eq!(db.buffer_pool_initial_size(), (1 << 20) / db.page_size());
    assert_eq!(db.sst_total(), 0);
}

#[test]
fn a_full_memtable_is_flushed_by_the_next_put() {
    let mut db = Database::open("flush")
        .unwrap()
        .set_memtable_capacity(3)
        .unwrap();
    db.put(1, 1).unwrap();
    db.put(2, 2).unwrap();
    db.put(3, 3).unwrap();
    assert_eq!(db.memtable_len(), 3);
    assert_eq!(db.sst_count(0), 0);
    db.put(3, 33).unwrap();
    assert_eq!(db.sst_count(0), 1);
    assert_eq!(db.memtable_len(), 1);
    assert_eq!(db.entry_counts(), &vec![vec![3usize]]);
    assert_eq!(db.get(3), Ok(Some(33)));
    assert_eq!(db.scan(0, 9), Ok(vec![(1, 1), (2, 2), (3, 33)]));
}

#[test]
fn tiered_compaction_merges_two_runs_into_the_next_level() {
    let mut db = Database::open_with_page_size("tiered", 64)
        .unwrap()
        .set_memtable_capacity(2)
        .unwrap()
        .set_compaction_policy(CompactionPolicy::Tiered)
        .set_sst_size_ratio(2);
    db.put(0, 0).unwrap();
    db.put(1, 0).unwrap();
    db.put(0, 1).unwrap();
    db.put(1, 1).unwrap();
    db.flush_memtable();
    assert_eq!(db.entry_counts(), &vec![vec![2usize], vec![2]]);
    db.put(5, 5).unwrap();
    db.flush_memtable();
    // The two runs of the second level were merged and moved on.
    assert_eq!(db.entry_counts(), &vec![vec![1usize], vec![], vec![2]]);
    assert_eq!(db.scan(-9, 9), Ok(vec![(0, 1), (1, 1), (5, 5)]));
    assert_eq!(
        lsm_store::array_sst::Sst.read(db.storage(), "tiered", 2, 0),
        Ok(vec![(0, 1), (1, 1)])
    );
}

#[test]
fn every_policy_and_every_kind_of_run_shows_the_same() {
    for policy in [
        CompactionPolicy::NoCompaction,
        CompactionPolicy::Leveled,
        CompactionPolicy::Tiered,
        CompactionPolicy::Dovstoevsky,
    ] {
        for implementation in [SstImplementation::Array, SstImplementation::Btree] {
            for algorithm in [SstSearchAlgorithm::Default, SstSearchAlgorithm::BinarySearch] {
                for bloom in [false, true] {
                    let mut db = Database::open_with_page_size("mix", 64)
                        .unwrap()
                        .set_memtable_capacity(5)
                        .unwrap()
                        .set_compaction_policy(policy)
                        .set_sst_implementation(implementation)
                        .set_sst_search_algorithm(algorithm)
                        .set_enable_bloom_filter(bloom)
                        .set_buffer_pool_capacity(3)
                        .unwrap();
                    let mut model = std::collections::BTreeMap::new();
                    for i in 0..700i64 {
                        let key = (i * 37) % 101 - 50;
                        if i % 5 == 4 {
                            db.delete(key).unwrap();
                            model.remove(&key);
                        } else {
                            db.put(key, i).unwrap();
                            model.insert(key, i);
                        }
                        if i % 97 == 0 {
                            let expected: Vec<(i64, i64)> = model
                                .range(-20..=20)
                                .map(|(key, value)| (*key, *value))
                                .collect();
                            assert_eq!(db.scan(-20, 20), Ok(expected));
                        }
                    }
                    for key in -60..60 {
                        assert_eq!(db.get(key), Ok(model.get(&key).copied()));
                    }
                    let expected: Vec<(i64, i64)> =
                        model.iter().map(|(key, value)| (*key, *value)).collect();
                    assert_eq!(db.scan(i64::MIN, i64::MAX), Ok(expected));
                    assert_eq!(db.scan(3, 2), Ok(vec![]));
                }
            }
        }
    }
}

#[test]
fn changing_the_bits_per_entry_drops_the_filters() {
    let mut db = Database::open_with_page_size("bits", 64)
        .unwrap()
        .set_memtable_capacity(2)
        .unwrap();
    for key in 0..7 {
        db.put(key, key).unwrap();
    }
    let bloom = lsm_store::filename::bloom_filter_path("bits", 0, 1);
    assert!(db.storage().path_exists(&bloom));
    let mut db = db.set_bloom_filter_bits_per_entry(9);
    assert!(!db.storage().path_exists(&bloom));
    for key in 0..7 {
        assert_eq!(db.get(key), Ok(Some(key)));
    }
    db.put(7, 7).unwrap();
    db.put(8, 8).unwrap();
    assert!(db
        .storage()
        .path_exists(&lsm_store::filename::bloom_filter_path("bits", 0, 3)));
}

#[test]
fn a_database_that_is_stored_and_restored_shows_the_same() {
    let mut db = Database::open_with_page_size("stored", 64)
        .unwrap()
        .set_memtable_capacity(4)
        .unwrap()
        .set_compaction_policy(CompactionPolicy::Leveled)
        .set_sst_implementation(SstImplementation::Btree);
    for key in 0..50 {
        db.put(key, key * 3).unwrap();
    }
    for key in (0..50).step_by(7) {
        db.delete(key).unwrap();
    }
    db.flush_memtable();
    let expected = db.scan(i64::MIN, i64::MAX).unwrap();
    let config = db.config();
    let entry_counts = db.entry_counts().clone();
    let mut disk = lsm_store::direct_io::Disk::new();
    for index in 0..db.storage().disk().file_count() {
        let file = db.storage().disk().file_at(index);
        disk.write_file(&file.path, file.bytes.clone());
    }
    db.close();
    assert!(db.is_closed());
    assert_eq!(db.put(1, 1), Err(StoreError::Closed));
    assert_eq!(db.delete(1), Err(StoreError::Closed));
    let mut reopened = Database::restore("stored", config, entry_counts.clone(), disk, 64).unwrap();
    assert_eq!(reopened.scan(i64::MIN, i64::MAX), Ok(expected));
    assert_eq!(reopened.get(7), Ok(None));
    assert_eq!(reopened.get(8), Ok(Some(24)));

    // A record that does not match the files is refused.
    let mut wrong = entry_counts.clone();
    wrong[0].push(3);
    let mut disk = lsm_store::direct_io::Disk::new();
    for index in 0..reopened.storage().disk().file_count() {
        let file = reopened.storage().disk().file_at(index);
        disk.write_file(&file.path, file.bytes.clone());
    }
    assert_eq!(
        Database::restore("stored", config, wrong, disk, 64).err(),
        Some(StoreError::Corrupt)
    );
    assert_eq!(
        Database::restore("", config, entry_counts, lsm_store::direct_io::Disk::new(), 64).err(),
        Some(StoreError::InvalidInput)
    );
    let storage = Storage::new(64, 1, 1, true);
    assert_eq!(storage.disk().file_count(), 0);
}

#[test]
fn leveled_compaction_merges_a_level_and_moves_it_on_when_it_is_full() {
    let mut db = Database::open_with_page_size("leveled", 64)
        .unwrap()
        .set_memtable_capacity(2)
        .unwrap()
        .set_compaction_policy(CompactionPolicy::Leveled)
        .set_sst_size_ratio(2);
    db.put(1, 10).unwrap();
    db.put(2, 20).unwrap();
    assert_eq!(db.entry_counts(), &vec![Vec::<usize>::new()]);
    db.put(3, 30).unwrap();
    assert_eq!(db.entry_counts(), &vec![vec![2usize]]);
    db.put(4, 40).unwrap();
    db.put(5, 50).unwrap();
    // The first run went to the second level, which it does not fill.
    assert_eq!(db.entry_counts(), &vec![vec![2usize], vec![2]]);
    db.put(6, 60).unwrap();
    db.put(7, 70).unwrap();
    // Two runs at the second level were merged into one of four entries,
    // which fills the level and went on to the third.
    assert_eq!(db.entry_counts(), &vec![vec![2usize], vec![], vec![4]]);
    assert_eq!(db.memtable_len(), 1);
    assert_eq!(
        lsm_store::array_sst::Sst.read(db.storage(), "leveled", 2, 0),
        Ok(vec![(1, 10), (2, 20), (3, 30), (4, 40)])
    );
    db.delete(1).unwrap();
    db.put(8, 80).unwrap();
    db.put(9, 90).unwrap();
    assert_eq!(db.entry_counts(), &vec![vec![2usize], vec![2], vec![4]]);
    db.put(10, 100).unwrap();
    db.put(11, 110).unwrap();
    // The second level was merged and moved on again. At the third level,
    // the last, the key that was deleted left for good; the six entries
    // that are left fill that level and went on to a fourth.
    assert_eq!(db.entry_counts(), &vec![vec![2usize], vec![], vec![], vec![6]]);
    assert_eq!(
        lsm_store::array_sst::Sst.read(db.storage(), "leveled", 3, 0),
        Ok(vec![(2, 20), (3, 30), (4, 40), (5, 50), (6, 60), (7, 70)])
    );
    assert_eq!(
        lsm_store::array_sst::Sst.read(db.storage(), "leveled", 0, 0),
        Ok(vec![(8, 80), (9, 90)])
    );
    assert_eq!(db.get(1), Ok(None));
    assert_eq!(
        db.scan(0, 100),
        Ok(vec![
            (2, 20),
            (3, 30),
            (4, 40),
            (5, 50),
            (6, 60),
            (7, 70),
            (8, 80),
            (9, 90),
            (10, 100),
            (11, 110)
        ])
    );
}

#[test]
fn database_test_scan_multiple() {
    let mut db = Database::open("test_db").unwrap().set_memtable_capacity(10).unwrap();
    db.put(1, 11).unwrap();
    db.put(3, 33).unwrap();
    let result = db.scan(1, 3);
    assert_eq!(result, Ok(vec![(1, 11), (3, 33)]));
}

#[test]
fn test_scan_sst() {
    let mut db = Database::open("test_db").unwrap().set_memtable_capacity(4).unwrap();
    db.put(1, 11).unwrap();
    db.put(3, 33).unwrap();
    db.put(4, 11).unwrap();
    db.put(5, 33).unwrap();
    db.put(6, 11).unwrap();
    db.put(7, 33).unwrap();
    let result = db.get(7);
    assert_eq!(result, Ok(Some(33)));
    assert_eq!(db.sst_count(0), 1);
}

#[test]
fn tiered_compaction_merges_two_runs_of_the_first_level_into_the_second() {
    let mut db = Database::open_with_page_size("first", 64)
        .unwrap()
        .set_memtable_capacity(2)
        .unwrap()
        .set_sst_size_ratio(2);
    db.put(0, 0).unwrap();
    db.put(1, 0).unwrap();
    db.flush_memtable();
    db.put(0, 1).unwrap();
    db.put(1, 1).unwrap();
    db.flush_memtable();
    assert_eq!(db.entry_counts(), &vec![vec![2usize, 2]]);
    let mut db = db.set_compaction_policy(CompactionPolicy::Tiered);
    db.handle_compaction(0);
    assert_eq!(db.entry_counts(), &vec![vec![], vec![2usize]]);
    assert_eq!(
        lsm_store::array_sst::Sst.read(db.storage(), "first", 1, 0),
        Ok(vec![(0, 1), (1, 1)])
    );
    assert!(!db.storage().path_exists(&lsm_store::filename::sst_path("first", 0, 0)));
    assert!(!db.storage().path_exists(&lsm_store::filename::sst_path("first", 0, 1)));
    assert!(db.storage().path_exists(&lsm_store::filename::bloom_filter_path("first", 1, 0)));
    assert_eq!(db.get(0), Ok(Some(1)));
    assert_eq!(db.scan(-5, 5), Ok(vec![(0, 1), (1, 1)]));
}

#[test]
fn the_leveled_policy_leaves_the_first_level_alone() {
    let mut db = Database::open_with_page_size("alone", 64)
        .unwrap()
        .set_memtable_capacity(2)
        .unwrap()
        .set_sst_size_ratio(2);
    db.put(0, 0).unwrap();
    db.flush_memtable();
    db.put(1, 1).unwrap();
    db.flush_memtable();
    let mut db = db.set_compaction_policy(CompactionPolicy::Leveled);
    db.handle_compaction(0);
    assert_eq!(db.entry_counts(), &vec![vec![1usize, 1]]);
    let mut db = db.set_compaction_policy(CompactionPolicy::NoCompaction);
    db.handle_compaction(0);
    assert_eq!(db.entry_counts(), &vec![vec![1usize, 1]]);
}

#[test]
fn closing_flushes_the_memtable_into_the_files() {
    let mut db = Database::open_with_page_size("shut", 64).unwrap();
    db.put(3, 30).unwrap();
    db.put(1, 10).unwrap();
    db.close();
    assert!(db.is_closed());
    assert_eq!(db.memtable_len(), 0);
    assert_eq!(
        lsm_store::array_sst::Sst.read(db.storage(), "shut", 0, 0),
        Ok(vec![(1, 10), (3, 30)])
    );
    assert_eq!(db.put(1, 1), Err(StoreError::Closed));
    assert_eq!(db.get(1), Ok(None));
}
