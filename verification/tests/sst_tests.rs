use lsm_store::array_sst;
use lsm_store::btree_info::fanout;
use lsm_store::btree_sst;
use lsm_store::btree_util::btree_navigate;
use lsm_store::file_interface::Storage;
use lsm_store::filename;
use lsm_store::merge_k_lists::{merge_k_sorted_lists, merge_runs};
use lsm_store::sst_util::{get_entries_at_page, get_sst_page, num_pages};
use lsm_store::system_info::{num_entries_per_page, page_size};
use lsm_store::types::{Entry, Key, Level, Run, Size, StoreError, Value, TOMBSTONE_VALUE};

fn new_storage() -> Storage {
    Storage::new(page_size(), 4, 16, true)
}

#[test]
fn test_small_compaction() {
    let db_name = "array_sst_compaction_small";
    const LEVEL: Level = 0;
    let mut storage = new_storage();
    let sst = array_sst::Sst {};
    let entries0: Vec<(Key, Value)> = vec![(0, 0), (1, 0)];
    let entries1: Vec<(Key, Value)> = vec![(0, 1), (1, 1)];
    let expected_result: Vec<(Key, Value)> = entries1.clone();

    let mut entry_counts = vec![entries0.len(), entries1.len()];
    sst.write(&mut storage, db_name, LEVEL, 0, &entries0).unwrap();
    sst.write(&mut storage, db_name, LEVEL, 1, &entries1).unwrap();
    sst.compact(&mut storage, db_name, LEVEL, &mut entry_counts, false)
        .unwrap();

    assert_eq!(entry_counts, vec![expected_result.len()]);

    let compaction_entries = sst.read(&storage, db_name, LEVEL, 0).unwrap();
    assert_eq!(compaction_entries, expected_result);
}

#[test]
fn test_small_compaction2() {
    let db_name = "array_sst_compaction_small2";
    const LEVEL: Level = 0;
    let mut storage = new_storage();
    let sst = array_sst::Sst {};
    let entries0: Vec<(Key, Value)> = vec![(0, 0), (2, 0)];
    let entries1: Vec<(Key, Value)> = vec![(1, 1), (2, 1)];
    let expected_result: Vec<(Key, Value)> = vec![(0, 0), (1, 1), (2, 1)];

    let mut entry_counts = vec![entries0.len(), entries1.len()];
    sst.write(&mut storage, db_name, LEVEL, 0, &entries0).unwrap();
    sst.write(&mut storage, db_name, LEVEL, 1, &entries1).unwrap();
    sst.compact(&mut storage, db_name, LEVEL, &mut entry_counts, false)
        .unwrap();

    assert_eq!(entry_counts, vec![expected_result.len()]);

    let compaction_entries = sst.read(&storage, db_name, LEVEL, 0).unwrap();
    assert_eq!(compaction_entries, expected_result);
}

#[test]
fn test_interspersed_compaction() {
    let db_name = "array_sst_interspersed_compaction";
    const LEVEL: Level = 0;
    let mut storage = new_storage();
    let sst = array_sst::Sst {};
    let iter = 0..num_entries_per_page() as Key;
    let mut entries0: Vec<(Key, Value)> = iter
        .to_owned()
        .skip(0)
        .step_by(2)
        .map(|key| (key, -key))
        .collect();
    let mut entries1: Vec<(Key, Value)> = iter
        .to_owned()
        .skip(1)
        .step_by(2)
        .map(|key| (key, key))
        .collect();
    let mut expected_result: Vec<(Key, Value)> = iter
        .to_owned()
        .map(|key| {
            if key % 2 == 0 {
                (key, -key)
            } else {
                (key, key)
            }
        })
        .collect();

    let key = 99999;
    entries0.push((key, TOMBSTONE_VALUE));
    entries1.push((key, 0));
    expected_result.push((key, 0));

    let key = 199999;
    entries0.push((key, 100));
    entries1.push((key, TOMBSTONE_VALUE));
    let no_tomstones_result = expected_result.clone();
    expected_result.push((key, TOMBSTONE_VALUE));

    let mut entry_counts = vec![entries0.len(), entries1.len()];
    sst.write(&mut storage, db_name, LEVEL, 0, &entries0).unwrap();
    sst.write(&mut storage, db_name, LEVEL, 1, &entries1).unwrap();
    sst.compact(&mut storage, db_name, LEVEL, &mut entry_counts, false)
        .unwrap();

    assert_eq!(entry_counts, vec![expected_result.len()]);

    let compaction_entries = sst.read(&storage, db_name, LEVEL, 0).unwrap();
    assert_eq!(compaction_entries, expected_result);

    let mut entry_counts = vec![entries0.len(), entries1.len()];
    sst.write(&mut storage, db_name, LEVEL, 0, &entries0).unwrap();
    sst.write(&mut storage, db_name, LEVEL, 1, &entries1).unwrap();
    sst.compact(&mut storage, db_name, LEVEL, &mut entry_counts, true)
        .unwrap();

    assert_eq!(entry_counts, vec![no_tomstones_result.len()]);

    let compaction_entries = sst.read(&storage, db_name, LEVEL, 0).unwrap();
    assert_eq!(compaction_entries, no_tomstones_result);
    assert!(!compaction_entries
        .iter()
        .any(|(_, value)| { *value == TOMBSTONE_VALUE }));
}

#[test]
fn test_compaction_edge_cases() {
    let db_name = "array_sst_compaction_edge_cases";
    const LEVEL: Level = 0;
    let mut storage = new_storage();
    let sst = array_sst::Sst {};
    let iter = 0..num_entries_per_page() as Key;
    let entries0: Vec<(Key, Value)> = iter
        .to_owned()
        .skip(0)
        .step_by(2)
        .map(|key| (key, -key))
        .collect();

    let mut entry_counts = vec![entries0.len()];
    sst.write(&mut storage, db_name, LEVEL, 0, &entries0).unwrap();
    sst.compact(&mut storage, db_name, LEVEL, &mut entry_counts, false)
        .unwrap();

    let compaction_entries = sst.read(&storage, db_name, LEVEL, 0).unwrap();
    assert_eq!(entry_counts, vec![entries0.len()]);
    assert_eq!(compaction_entries, entries0);

    let mut entry_counts = vec![entries0.len(), 0];
    sst.write(&mut storage, db_name, LEVEL, 0, &entries0).unwrap();
    sst.write(&mut storage, db_name, LEVEL, 1, &[]).unwrap();
    sst.compact(&mut storage, db_name, LEVEL, &mut entry_counts, false)
        .unwrap();

    let compaction_entries = sst.read(&storage, db_name, LEVEL, 0).unwrap();
    assert_eq!(entry_counts, vec![entries0.len()]);
    assert_eq!(compaction_entries, entries0);

    let mut entry_counts = vec![0, 0];
    sst.write(&mut storage, db_name, LEVEL, 0, &[]).unwrap();
    sst.write(&mut storage, db_name, LEVEL, 1, &[]).unwrap();
    sst.compact(&mut storage, db_name, LEVEL, &mut entry_counts, false)
        .unwrap();

    assert_eq!(entry_counts, vec![]);
    assert!(sst.read(&storage, db_name, LEVEL, 0).is_err());

    let entries0: Vec<(Key, Value)> = iter
        .to_owned()
        .skip(0)
        .step_by(2)
        .map(|key| (key, TOMBSTONE_VALUE))
        .collect();
    let entries1: Vec<(Key, Value)> = iter
        .to_owned()
        .skip(1)
        .step_by(2)
        .map(|key| (key, TOMBSTONE_VALUE))
        .collect();
    let expected_result: Vec<(Key, Value)> = iter.map(|key| (key, TOMBSTONE_VALUE)).collect();

    let mut entry_counts = vec![entries0.len(), entries1.len()];
    sst.write(&mut storage, db_name, LEVEL, 0, &entries0).unwrap();
    sst.write(&mut storage, db_name, LEVEL, 1, &entries1).unwrap();
    sst.compact(&mut storage, db_name, LEVEL, &mut entry_counts, false)
        .unwrap();

    assert_eq!(entry_counts, vec![expected_result.len()]);
    let compaction_entries = sst.read(&storage, db_name, LEVEL, 0).unwrap();
    assert_eq!(compaction_entries, expected_result);

    let mut entry_counts = vec![entries0.len(), entries1.len()];
    sst.write(&mut storage, db_name, LEVEL, 0, &entries0).unwrap();
    sst.write(&mut storage, db_name, LEVEL, 1, &entries1).unwrap();
    sst.compact(&mut storage, db_name, LEVEL, &mut entry_counts, true)
        .unwrap();

    assert_eq!(entry_counts, vec![]);
    assert!(sst.read(&storage, db_name, LEVEL, 0).is_err());
}

#[test]
fn test_multi_compaction() {
    let db_name = "array_sst_compaction";
    const LEVEL: Level = 0;
    let mut storage = new_storage();
    let sst = array_sst::Sst {};
    let entries0: Vec<(Key, Value)> = vec![(0, 0), (1, 0), (32, 0), (64, 0)];
    let entries1: Vec<(Key, Value)> = vec![(0, 1), (1, TOMBSTONE_VALUE)];
    let entries2: Vec<(Key, Value)> = vec![(1, 2), (16, TOMBSTONE_VALUE), (32, 2)];
    let expected_result: Vec<(Key, Value)> = vec![
        (0, 1),
        (1, 2),
        (16, TOMBSTONE_VALUE),
        (32, 2),
        (64, 0),
    ];
    let mut entry_counts = vec![entries0.len(), entries1.len(), entries2.len()];

    sst.write(&mut storage, db_name, LEVEL, 0, &entries0).unwrap();
    sst.write(&mut storage, db_name, LEVEL, 1, &entries1).unwrap();
    sst.write(&mut storage, db_name, LEVEL, 2, &entries2).unwrap();

    sst.compact(&mut storage, db_name, LEVEL, &mut entry_counts, false)
        .unwrap();

    assert_eq!(entry_counts, vec![expected_result.len()]);

    let compaction_entries = sst.read(&storage, db_name, LEVEL, 0).unwrap();
    assert_eq!(compaction_entries, expected_result);

    let expected_result: Vec<(Key, Value)> = vec![(0, 1), (1, 2), (32, 2), (64, 0)];
    let mut entry_counts = vec![entries0.len(), entries1.len(), entries2.len()];

    sst.write(&mut storage, db_name, LEVEL, 0, &entries0).unwrap();
    sst.write(&mut storage, db_name, LEVEL, 1, &entries1).unwrap();
    sst.write(&mut storage, db_name, LEVEL, 2, &entries2).unwrap();

    sst.compact(&mut storage, db_name, LEVEL, &mut entry_counts, true)
        .unwrap();

    assert_eq!(entry_counts, vec![expected_result.len()]);

    let compaction_entries = sst.read(&storage, db_name, LEVEL, 0).unwrap();
    assert_eq!(compaction_entries, expected_result);
}

#[test]
fn test_simple_compaction_btree_nodes() {
    let db_name = "btree_simple_sst_compaction";
    const LEVEL: Level = 0;
    let mut storage = new_storage();
    let btree_sst = btree_sst::Sst {};
    let num_entries_per_sst = fanout() * num_entries_per_page();
    let iter = 0..num_entries_per_sst as Key;
    let entries0: Vec<Entry> = iter.to_owned().map(|key| (key, 0)).collect();
    let entries1: Vec<Entry> = iter.map(|key| (entries0.len() as Key + key, 1)).collect();

    let mut expected_result = vec![];
    expected_result.extend(entries0.to_owned());
    expected_result.extend(entries1.to_owned());

    btree_sst.write(&mut storage, db_name, LEVEL, 0, &entries0).unwrap();
    btree_sst.write(&mut storage, db_name, LEVEL, 1, &entries1).unwrap();

    let mut entry_counts = vec![entries0.len(), entries1.len()];
    btree_sst
        .compact(&mut storage, db_name, LEVEL, &mut entry_counts, false)
        .unwrap();

    let key_range = (entries0.first().unwrap().0, entries1.last().unwrap().0);
    let result = btree_sst
        .scan(&mut storage, db_name, LEVEL, 0, key_range, entry_counts[0])
        .unwrap();

    assert_eq!(result.len(), expected_result.len());
    assert_eq!(result, expected_result);
}

#[test]
fn test_multi_compaction_btree_nodes() {
    let db_name = "btree_multi_sst_compaction";
    const LEVEL: Level = 0;
    let mut storage = new_storage();
    let btree_sst = btree_sst::Sst {};
    let num_entries_per_sst = fanout() * num_entries_per_page();
    let num_runs: Run = 5;

    let mut entries = Vec::<Vec<Entry>>::new();
    let mut entry_counts = Vec::<Size>::new();
    for run in 0..num_runs {
        let run_entries: Vec<Entry> = (0..num_entries_per_sst as Key)
            .map(|key| (key + (run * num_entries_per_sst) as Key, run as Value))
            .collect();
        entry_counts.push(run_entries.len());

        btree_sst.write(&mut storage, db_name, LEVEL, run, &run_entries).unwrap();

        entries.push(run_entries);
    }

    let expected_result = entries.iter().fold(vec![], |mut acc, entries| {
        acc.extend(entries.iter());
        acc
    });

    btree_sst
        .compact(&mut storage, db_name, LEVEL, &mut entry_counts, false)
        .unwrap();

    let key_range = (
        entries[0].first().unwrap().0,
        entries[num_runs - 1].last().unwrap().0,
    );
    let result = btree_sst
        .scan(&mut storage, db_name, LEVEL, 0, key_range, entry_counts[0])
        .unwrap();

    assert_eq!(result.len(), expected_result.len());
    assert_eq!(result, expected_result);
}

fn small_run(count: usize) -> Vec<Entry> {
    (0..count as Key).map(|key| (key * 2, key * 20)).collect()
}

#[test]
fn array_run_get_and_scan_over_several_pages() {
    let size = 64;
    let mut storage = Storage::new(size, 2, 3, true);
    let sst = array_sst::Sst {};
    let entries = small_run(23);
    sst.write(&mut storage, "db", 0, 0, &entries).unwrap();
    assert_eq!(sst.len(&storage, "db", 0, 0), Ok(23));
    assert_eq!(num_pages(23, size), 6);
    assert_eq!(
        get_entries_at_page(&mut storage, "db", 0, 0, 5),
        Ok(vec![(40, 400), (42, 420), (44, 440)])
    );
    assert_eq!(get_sst_page(&mut storage, "db", 0, 0, 6), Ok(vec![]));
    assert_eq!(
        get_sst_page(&mut storage, "db", 0, 1, 0),
        Err(StoreError::MissingFile)
    );
    for (key, value) in entries.iter() {
        assert_eq!(sst.get(&mut storage, "db", 0, 0, *key, 23), Ok(Some(*value)));
        assert_eq!(sst.get(&mut storage, "db", 0, 0, *key + 1, 23), Ok(None));
    }
    assert_eq!(sst.get(&mut storage, "db", 0, 0, -1, 23), Ok(None));
    assert_eq!(sst.scan(&mut storage, "db", 0, 0, (7, 6), 23), Ok(vec![]));
    assert_eq!(sst.scan(&mut storage, "db", 0, 0, (6, 6), 23), Ok(vec![(6, 60)]));
    assert_eq!(sst.scan(&mut storage, "db", 0, 0, (7, 7), 23), Ok(vec![]));
    assert_eq!(
        sst.scan(&mut storage, "db", 0, 0, (5, 17), 23),
        Ok(vec![(6, 60), (8, 80), (10, 100), (12, 120), (14, 140), (16, 160)])
    );
    assert_eq!(sst.scan(&mut storage, "db", 0, 0, (-100, 1000), 23), Ok(entries.clone()));
    assert_eq!(sst.scan(&mut storage, "db", 0, 0, (100, 1000), 23), Ok(vec![]));
    assert_eq!(sst.lower_bound(&mut storage, "db", 0, 0, 7, 23), Ok(4));
    assert_eq!(sst.upper_end(&mut storage, "db", 0, 0, 8, 23), Ok(5));
    assert_eq!(sst.collect_range(&mut storage, "db", 0, 0, 3, 5, 23), Ok(vec![(6, 60), (8, 80)]));
    assert_eq!(
        sst.get(&mut storage, "db", 0, 9, 1, 23),
        Err(StoreError::MissingFile)
    );
    assert_eq!(sst.get(&mut storage, "db", 0, 9, 1, 0), Ok(None));
}

#[test]
fn btree_run_has_an_index_only_beyond_one_page() {
    let size = 64;
    let mut storage = Storage::new(size, 2, 3, true);
    let sst = btree_sst::Sst {};
    sst.write(&mut storage, "db", 0, 0, &small_run(4)).unwrap();
    assert!(!storage.path_exists(&filename::sst_btree_path("db", 0, 0)));
    sst.write(&mut storage, "db", 0, 1, &small_run(5)).unwrap();
    assert!(storage.path_exists(&filename::sst_btree_path("db", 0, 1)));
    // Two leaves under one root.
    assert_eq!(storage.file_len(&filename::sst_btree_path("db", 0, 1)), Some(64));
}

#[test]
fn btree_run_of_three_levels_finds_every_key() {
    let size = 64;
    let mut storage = Storage::new(size, 2, 3, true);
    let sst = btree_sst::Sst {};
    // 8 * 8 * 4 + 1 entries: 65 leaves under 9 nodes, 2 nodes and a root.
    let count = 8 * 8 * 4 + 1;
    let entries = small_run(count);
    sst.write(&mut storage, "db", 2, 3, &entries).unwrap();
    assert_eq!(
        storage.file_len(&filename::sst_btree_path("db", 2, 3)),
        Some((1 + 2 + 9) * 64)
    );
    for (index, (key, value)) in entries.iter().enumerate() {
        assert_eq!(
            btree_navigate(&mut storage, "db", 2, 3, *key, count),
            Ok(index / 4)
        );
        assert_eq!(sst.get(&mut storage, "db", 2, 3, *key, count), Ok(Some(*value)));
        assert_eq!(sst.get(&mut storage, "db", 2, 3, *key + 1, count), Ok(None));
        assert_eq!(
            sst.binary_search_get(&mut storage, "db", 2, 3, *key, count),
            Ok(Some(*value))
        );
    }
    assert_eq!(sst.get(&mut storage, "db", 2, 3, -5, count), Ok(None));
    assert_eq!(
        sst.scan(&mut storage, "db", 2, 3, (101, 111), count),
        Ok(vec![(102, 1020), (104, 1040), (106, 1060), (108, 1080), (110, 1100)])
    );
    assert_eq!(sst.scan(&mut storage, "db", 2, 3, (-9, 9999), count), Ok(entries.clone()));
    assert_eq!(sst.scan(&mut storage, "db", 2, 3, (9, 8), count), Ok(vec![]));
    assert_eq!(
        sst.binary_search_scan(&mut storage, "db", 2, 3, (510, 9999), count),
        Ok(vec![(510, 5100), (512, 5120)])
    );
    assert_eq!(sst.read(&storage, "db", 2, 3), Ok(entries.clone()));
    assert_eq!(sst.len(&storage, "db", 2, 3), Ok(count));
}

#[test]
fn a_wrong_index_does_not_mislead_a_btree_run() {
    let size = 64;
    let mut storage = Storage::new(size, 2, 3, true);
    let sst = btree_sst::Sst {};
    let entries = small_run(40);
    sst.write(&mut storage, "db", 0, 0, &entries).unwrap();
    let index_path = filename::sst_btree_path("db", 0, 0);
    let length = storage.file_len(&index_path).unwrap();
    storage.write_file(&index_path, vec![0u8; length]);
    for (key, value) in entries.iter() {
        assert_eq!(sst.get(&mut storage, "db", 0, 0, *key, 40), Ok(Some(*value)));
    }
    assert_eq!(sst.scan(&mut storage, "db", 0, 0, (10, 14), 40), Ok(vec![(10, 100), (12, 120), (14, 140)]));
    storage.remove_file(&index_path).unwrap();
    assert_eq!(sst.get(&mut storage, "db", 0, 0, 78, 40), Ok(Some(780)));
}

#[test]
fn merge_prefers_the_younger_list() {
    let lists = vec![
        vec![(1, 10), (3, 30), (5, 50)],
        vec![(2, 21), (3, 31)],
        vec![(3, TOMBSTONE_VALUE), (9, 92)],
    ];
    assert_eq!(
        merge_runs(&lists, false),
        vec![(1, 10), (2, 21), (3, TOMBSTONE_VALUE), (5, 50), (9, 92)]
    );
    assert_eq!(merge_runs(&lists, true), vec![(1, 10), (2, 21), (5, 50), (9, 92)]);
    assert_eq!(merge_k_sorted_lists(vec![vec![(1, 1)], vec![], vec![(0, 0)]]), vec![(0, 0), (1, 1)]);
    assert_eq!(merge_k_sorted_lists(vec![]), vec![]);
    let single = vec![(4, 4), (8, TOMBSTONE_VALUE)];
    assert_eq!(merge_runs(&vec![single.clone()], false), single);
}

#[test]
fn merging_to_the_scratch_file_keeps_the_runs_and_writes_whole_pages() {
    let page: usize = 64;
    for use_pool in [false, true] {
        let mut storage = Storage::new(page, 2, 2, use_pool);
        let sst = array_sst::Sst {};
        let older: Vec<Entry> = (0..23).map(|i| (2 * i as Key, 1)).collect();
        let middle: Vec<Entry> = (0..9).map(|i| (3 * i as Key, TOMBSTONE_VALUE)).collect();
        let younger: Vec<Entry> = (0..5).map(|i| (10 * i as Key, 3)).collect();
        sst.write(&mut storage, "db", 1, 0, &older).unwrap();
        sst.write(&mut storage, "db", 1, 1, &middle).unwrap();
        sst.write(&mut storage, "db", 1, 2, &younger).unwrap();
        let counts: Vec<Size> = vec![older.len(), middle.len(), younger.len()];

        let lists = vec![older.clone(), middle.clone(), younger.clone()];
        for discard in [false, true] {
            let expected = merge_runs(&lists, discard);
            let written = sst.merge_to_scratch(&mut storage, "db", 1, &counts, discard);
            assert_eq!(written, Ok(expected.len()));
            let scratch = filename::sst_compaction_path("db", 1);
            let bytes = storage.read_file(&scratch).unwrap();
            assert_eq!(bytes.len(), 16 * expected.len());
            assert_eq!(lsm_store::serde_entry::deserialize(&bytes), Ok(expected.clone()));
            assert_eq!(sst.read(&storage, "db", 1, 0), Ok(older.clone()));
            assert_eq!(sst.read(&storage, "db", 1, 1), Ok(middle.clone()));
            assert_eq!(sst.read(&storage, "db", 1, 2), Ok(younger.clone()));
        }
        let kept = merge_runs(&lists, true);
        assert!(kept.iter().all(|entry| entry.1 != TOMBSTONE_VALUE));
        assert_eq!(kept[0], (0, 3));
        assert_eq!(kept[1], (2, 1));
        assert_eq!(kept[2], (4, 1));
        assert_eq!(kept[3], (8, 1));
    }
}

#[test]
fn merging_runs_that_are_shorter_than_recorded_fails_and_compaction_leaves_no_scratch_file() {
    let mut storage = Storage::new(64, 2, 2, true);
    let sst = array_sst::Sst {};
    sst.write(&mut storage, "db", 0, 0, &vec![(1, 1), (2, 2)]).unwrap();
    sst.write(&mut storage, "db", 0, 1, &vec![(1, 5)]).unwrap();
    let mut counts: Vec<Size> = vec![2, 7];
    assert!(sst.compact(&mut storage, "db", 0, &mut counts, false).is_err());
    assert!(!storage.path_exists(&filename::sst_compaction_path("db", 0)));
    assert_eq!(counts, vec![2, 7]);
    assert_eq!(sst.read(&storage, "db", 0, 0), Ok(vec![(1, 1), (2, 2)]));
    assert_eq!(sst.read(&storage, "db", 0, 1), Ok(vec![(1, 5)]));
}

#[test]
fn navigation_ends_at_the_first_page_whose_last_key_is_not_below_the_key() {
    let size = 64;
    let mut storage = Storage::new(size, 2, 3, false);
    let sst = btree_sst::Sst {};
    let count = 8 * 8 * 4 + 1;
    let entries = small_run(count);
    sst.write(&mut storage, "db", 0, 0, &entries).unwrap();
    let leaves = 65;
    assert_eq!(btree_navigate(&mut storage, "db", 0, 0, Key::MIN + 1, count), Ok(0));
    assert_eq!(btree_navigate(&mut storage, "db", 0, 0, Key::MAX, count), Ok(leaves - 1));
    for page in 0..leaves - 1 {
        let last = entries[4 * page + 3].0;
        assert_eq!(btree_navigate(&mut storage, "db", 0, 0, last, count), Ok(page));
        assert_eq!(btree_navigate(&mut storage, "db", 0, 0, last - 1, count), Ok(page));
        assert_eq!(btree_navigate(&mut storage, "db", 0, 0, last + 1, count), Ok(page + 1));
    }
    // A run of one page has no inner nodes to walk.
    sst.write(&mut storage, "db", 0, 1, &small_run(4)).unwrap();
    assert_eq!(btree_navigate(&mut storage, "db", 0, 1, 1000, 4), Ok(0));
    assert!(btree_navigate(&mut storage, "db", 0, 1, 1000, 0).is_err());
    // Without its index a longer run cannot be walked.
    storage.remove_file(&filename::sst_btree_path("db", 0, 0)).unwrap();
    assert_eq!(
        btree_navigate(&mut storage, "db", 0, 0, 7, count),
        Err(StoreError::MissingFile)
    );
}

#[test]
fn the_delimiters_of_a_run_are_the_last_keys_of_its_pages() {
    let mut storage = Storage::new(64, 2, 3, true);
    let entries = small_run(23);
    btree_sst::Sst {}.write(&mut storage, "db", 1, 0, &entries).unwrap();
    assert_eq!(
        btree_sst::Sst::page_delimiters(&mut storage, "db", 1, 0, entries.len()),
        Ok(vec![6, 14, 22, 30, 38, 44])
    );
    assert_eq!(btree_sst::Sst::page_delimiters(&mut storage, "db", 1, 0, 0), Ok(vec![]));
    assert_eq!(
        btree_sst::Sst::page_delimiters(&mut storage, "db", 1, 1, 3),
        Err(StoreError::MissingFile)
    );
    // The index of a merged run is that of a run written at once.
    let older: Vec<Entry> = (0..30).map(|i| (3 * i as Key, 1)).collect();
    let younger: Vec<Entry> = (0..30).map(|i| (2 * i as Key, 2)).collect();
    btree_sst::Sst {}.write(&mut storage, "db", 2, 0, &older).unwrap();
    btree_sst::Sst {}.write(&mut storage, "db", 2, 1, &younger).unwrap();
    let mut counts: Vec<Size> = vec![30, 30];
    btree_sst::Sst {}.compact(&mut storage, "db", 2, &mut counts, false).unwrap();
    let merged_run = merge_runs(&vec![older, younger], false);
    assert_eq!(counts, vec![merged_run.len()]);
    let index = storage.read_file(&filename::sst_btree_path("db", 2, 0)).unwrap();
    btree_sst::Sst {}.write(&mut storage, "db", 3, 0, &merged_run).unwrap();
    assert_eq!(storage.read_file(&filename::sst_btree_path("db", 3, 0)).unwrap(), index);
    assert!(!storage.path_exists(&filename::sst_btree_path("db", 2, 1)));
}

fn every_operation_of_a_kind_of_run<T: lsm_store::sst::SortedStringTable>(sst: &T, indexed: bool) {
    let mut storage = Storage::new(64, 2, 3, true);
    let entries = small_run(30);
    sst.write(&mut storage, "kind", 0, 0, &entries).unwrap();
    assert_eq!(
        storage.path_exists(&filename::sst_btree_path("kind", 0, 0)),
        indexed
    );
    assert_eq!(sst.read(&storage, "kind", 0, 0), Ok(entries.clone()));
    assert_eq!(sst.len(&storage, "kind", 0, 0), Ok(30));
    assert_eq!(sst.len(&storage, "kind", 0, 1), Err(StoreError::MissingFile));
    for (key, value) in entries.iter() {
        assert_eq!(sst.get(&mut storage, "kind", 0, 0, *key, 30), Ok(Some(*value)));
        assert_eq!(sst.binary_search_get(&mut storage, "kind", 0, 0, *key + 1, 30), Ok(None));
        assert_eq!(
            lsm_store::sst::search_run(
                sst,
                &mut storage,
                "kind",
                lsm_store::types::SstSearchAlgorithm::BinarySearch,
                0,
                0,
                *key,
                30
            ),
            Ok(Some(*value))
        );
    }
    assert_eq!(
        sst.scan(&mut storage, "kind", 0, 0, (7, 13), 30),
        Ok(vec![(8, 80), (10, 100), (12, 120)])
    );
    assert_eq!(
        sst.binary_search_scan(&mut storage, "kind", 0, 0, (58, 99), 30),
        Ok(vec![(58, 580)])
    );
    assert_eq!(
        lsm_store::sst::scan_run(
            sst,
            &mut storage,
            "kind",
            lsm_store::types::SstSearchAlgorithm::Default,
            0,
            0,
            (13, 7),
            30
        ),
        Ok(vec![])
    );
    let younger: Vec<Entry> = vec![(0, TOMBSTONE_VALUE), (1, 1), (58, 5)];
    sst.write(&mut storage, "kind", 0, 1, &younger).unwrap();
    let mut counts: Vec<Size> = vec![30, 3];
    sst.compact(&mut storage, "kind", 0, &mut counts, true).unwrap();
    assert_eq!(counts, vec![30]);
    let merged_run = sst.read(&storage, "kind", 0, 0).unwrap();
    assert_eq!(merged_run[0], (1, 1));
    assert_eq!(merged_run[29], (58, 5));
    assert!(!storage.path_exists(&filename::sst_path("kind", 0, 1)));
    assert_eq!(
        storage.path_exists(&filename::sst_btree_path("kind", 0, 0)),
        indexed
    );
}

#[test]
fn both_kinds_of_run_offer_the_same() {
    every_operation_of_a_kind_of_run(&array_sst::Sst {}, false);
    every_operation_of_a_kind_of_run(&btree_sst::Sst {}, true);
}

#[test]
fn test_put_int() {
    let mut storage = new_storage();
    let sst = array_sst::Sst {};
    let vec: Vec<Entry> = vec![(1, 2), (3, 4), (5, 3), (7, 8)];
    sst.write(&mut storage, "memtable", 0, 0, &vec).unwrap();
    let path = filename::sst_path("memtable", 0, 0);
    let mut cursor = array_sst::PageCursor::new();
    assert_eq!(cursor.entry_at(&mut storage, &path, 2), Ok((5, 3)));
    assert_eq!(sst.len(&storage, "memtable", 0, 0), Ok(4));
    assert_eq!(sst.binary_search_get(&mut storage, "memtable", 0, 0, 1, 4), Ok(Some(2)));
    assert_eq!(
        sst.binary_search_scan(&mut storage, "memtable", 0, 0, (1, 7), 4),
        Ok(vec![(1, 2), (3, 4), (5, 3), (7, 8)])
    );
}

#[test]
fn merging_sorted_lists_keeps_every_entry() {
    assert_eq!(
        merge_k_sorted_lists(vec![vec![(1, 1), (3, 3)], vec![(2, 2)]]),
        vec![(1, 1), (2, 2), (3, 3)]
    );
    assert_eq!(merge_k_sorted_lists(vec![vec![(1, 1)], vec![(1, 1)]]), vec![(1, 1), (1, 1)]);
    assert_eq!(merge_k_sorted_lists(vec![vec![], vec![]]), vec![]);
    let merged_list = merge_k_sorted_lists(vec![
        vec![(1, 1), (1, 1), (4, 4), (9, 9)],
        vec![(0, 0), (4, 4), (4, 4)],
        vec![],
        vec![(2, 2), (9, 9)],
    ]);
    assert_eq!(
        merged_list,
        vec![(0, 0), (1, 1), (1, 1), (2, 2), (4, 4), (4, 4), (4, 4), (9, 9), (9, 9)]
    );
}
