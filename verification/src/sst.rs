//! What every kind of run offers: runs that are arrays of entries and runs
//! with a static B-tree over their pages are written, read, searched and
//! merged under one contract.

use crate::array_sst::{self, level_runs, level_sound};
use crate::btree_sst;
use crate::db::{compaction_outcome, lemma_compaction_outcome, lemma_run_files_apart};
use crate::file_interface::Storage;
use crate::filename;
use crate::merge_k_lists::{is_merge, merged};
use crate::serde_entry::{entries_bytes, entries_from_bytes};
use crate::sst_util::{in_range, lookup, run_file};
use crate::types::{Entry, Key, Level, Run, Size, SstSearchAlgorithm, StoreError, Value};
use vstd::prelude::*;

verus! {

/// Every file but the file of entries and the index of one run is as it
/// was.
pub open spec fn only_run_written(
    before: Map<Seq<char>, Seq<u8>>,
    after: Map<Seq<char>, Seq<u8>>,
    db_name: Seq<char>,
    level: Level,
    run: Run,
) -> bool {
    forall|path: Seq<char>|
        #![trigger after.contains_key(path)]
        #![trigger before.contains_key(path)]
        path != filename::spec_sst_path(db_name, level, run) && path
            != filename::spec_sst_btree_path(db_name, level, run) ==> after.contains_key(path)
            == before.contains_key(path) && after[path] == before[path]
}

/// A kind of run. Each of its operations is about one run, but the last,
/// which merges the runs of a level.
pub trait SortedStringTable {
    /// Writes `entries` as run `run` of level `level`.
    fn write(&self, storage: &mut Storage, db_name: &str, level: Level, run: Run, entries: &[Entry]) -> (done:
        Result<(), StoreError>)
        requires
            old(storage).wf(),
        ensures
            done.is_ok(),
            final(storage).wf(),
            final(storage).spec_page_size() == old(storage).spec_page_size(),
            final(storage).spec_use_pool() == old(storage).spec_use_pool(),
            final(storage).pool_capacity() == old(storage).pool_capacity(),
            final(storage).files().contains_key(filename::spec_sst_path(db_name@, level, run)),
            final(storage).files()[filename::spec_sst_path(db_name@, level, run)] == entries_bytes(
                entries@,
            ),
            only_run_written(old(storage).files(), final(storage).files(), db_name@, level, run),
    ;

    /// All entries of a run.
    fn read(&self, storage: &Storage, db_name: &str, level: Level, run: Run) -> (entries: Result<
        Vec<Entry>,
        StoreError,
    >)
        requires
            storage.wf(),
        ensures
            ({
                let path = filename::spec_sst_path(db_name@, level, run);
                let files = storage.files();
                match entries {
                    Ok(list) => files.contains_key(path) && files[path].len() % 16 == 0 && list@
                        == entries_from_bytes(files[path]),
                    Err(e) => if files.contains_key(path) {
                        files[path].len() % 16 != 0 && e == StoreError::Corrupt
                    } else {
                        e == StoreError::MissingFile
                    },
                }
            }),
    ;

    /// The value of `key` in a run of `num_entries` entries.
    fn get(
        &self,
        storage: &mut Storage,
        db_name: &str,
        level: Level,
        run: Run,
        key: Key,
        num_entries: Size,
    ) -> (found: Result<Option<Value>, StoreError>)
        requires
            old(storage).wf(),
        ensures
            final(storage).wf(),
            final(storage).files() == old(storage).files(),
            final(storage).spec_page_size() == old(storage).spec_page_size(),
            final(storage).spec_use_pool() == old(storage).spec_use_pool(),
            final(storage).pool_capacity() == old(storage).pool_capacity(),
            ({
                let path = filename::spec_sst_path(db_name@, level, run);
                let files = old(storage).files();
                &&& num_entries == 0 ==> found == Ok::<Option<Value>, StoreError>(None)
                &&& num_entries > 0 && !files.contains_key(path) ==> found == Err::<
                    Option<Value>,
                    StoreError,
                >(StoreError::MissingFile)
                &&& files.contains_key(path) && run_file(files[path], num_entries as int) ==> found
                    == Ok::<Option<Value>, StoreError>(lookup(entries_from_bytes(files[path]), key))
            }),
    ;

    /// The value of `key` in a run of `num_entries` entries, found by
    /// binary search over the entries.
    fn binary_search_get(
        &self,
        storage: &mut Storage,
        db_name: &str,
        level: Level,
        run: Run,
        key: Key,
        num_entries: Size,
    ) -> (found: Result<Option<Value>, StoreError>)
        requires
            old(storage).wf(),
        ensures
            final(storage).wf(),
            final(storage).files() == old(storage).files(),
            final(storage).spec_page_size() == old(storage).spec_page_size(),
            final(storage).spec_use_pool() == old(storage).spec_use_pool(),
            final(storage).pool_capacity() == old(storage).pool_capacity(),
            ({
                let path = filename::spec_sst_path(db_name@, level, run);
                let files = old(storage).files();
                &&& num_entries == 0 ==> found == Ok::<Option<Value>, StoreError>(None)
                &&& num_entries > 0 && !files.contains_key(path) ==> found == Err::<
                    Option<Value>,
                    StoreError,
                >(StoreError::MissingFile)
                &&& files.contains_key(path) && run_file(files[path], num_entries as int) ==> found
                    == Ok::<Option<Value>, StoreError>(lookup(entries_from_bytes(files[path]), key))
            }),
    ;

    /// The entries of a run of `num_entries` entries whose keys lie in
    /// `key_range`, both ends included.
    fn scan(
        &self,
        storage: &mut Storage,
        db_name: &str,
        level: Level,
        run: Run,
        key_range: (Key, Key),
        num_entries: Size,
    ) -> (found: Result<Vec<Entry>, StoreError>)
        requires
            old(storage).wf(),
        ensures
            final(storage).wf(),
            final(storage).files() == old(storage).files(),
            final(storage).spec_page_size() == old(storage).spec_page_size(),
            final(storage).spec_use_pool() == old(storage).spec_use_pool(),
            final(storage).pool_capacity() == old(storage).pool_capacity(),
            ({
                let path = filename::spec_sst_path(db_name@, level, run);
                let files = old(storage).files();
                &&& num_entries == 0 ==> found.is_ok() && found.unwrap()@ == Seq::<Entry>::empty()
                &&& num_entries > 0 && !files.contains_key(path) ==> found == Err::<
                    Vec<Entry>,
                    StoreError,
                >(StoreError::MissingFile)
                &&& files.contains_key(path) && run_file(files[path], num_entries as int)
                    ==> found.is_ok() && found.unwrap()@ == in_range(
                    entries_from_bytes(files[path]),
                    key_range.0,
                    key_range.1,
                )
            }),
    ;

    /// The entries of a run of `num_entries` entries whose keys lie in
    /// `key_range`, found by binary search over the entries.
    fn binary_search_scan(
        &self,
        storage: &mut Storage,
        db_name: &str,
        level: Level,
        run: Run,
        key_range: (Key, Key),
        num_entries: Size,
    ) -> (found: Result<Vec<Entry>, StoreError>)
        requires
            old(storage).wf(),
        ensures
            final(storage).wf(),
            final(storage).files() == old(storage).files(),
            final(storage).spec_page_size() == old(storage).spec_page_size(),
            final(storage).spec_use_pool() == old(storage).spec_use_pool(),
            final(storage).pool_capacity() == old(storage).pool_capacity(),
            ({
                let path = filename::spec_sst_path(db_name@, level, run);
                let files = old(storage).files();
                &&& num_entries == 0 ==> found.is_ok() && found.unwrap()@ == Seq::<Entry>::empty()
                &&& num_entries > 0 && !files.contains_key(path) ==> found == Err::<
                    Vec<Entry>,
                    StoreError,
                >(StoreError::MissingFile)
                &&& files.contains_key(path) && run_file(files[path], num_entries as int)
                    ==> found.is_ok() && found.unwrap()@ == in_range(
                    entries_from_bytes(files[path]),
                    key_range.0,
                    key_range.1,
                )
            }),
    ;

    /// Number of entries of a run.
    fn len(&self, storage: &Storage, db_name: &str, level: Level, run: Run) -> (len: Result<
        Size,
        StoreError,
    >)
        requires
            storage.wf(),
        ensures
            ({
                let path = filename::spec_sst_path(db_name@, level, run);
                let files = storage.files();
                match len {
                    Ok(n) => files.contains_key(path) && n == files[path].len() / 16,
                    Err(e) => !files.contains_key(path) && e == StoreError::MissingFile,
                }
            }),
    ;

    /// Merges all runs of level `level` into its run 0 and records the
    /// number of entries of that run in `entry_counts`, which held those of
    /// the runs. A level of fewer than two runs is left as it is.
    fn compact(
        &self,
        storage: &mut Storage,
        db_name: &str,
        level: Level,
        entry_counts: &mut Vec<Size>,
        discard_tombstones: bool,
    ) -> (done: Result<(), StoreError>)
        requires
            old(storage).wf(),
        ensures
            final(storage).wf(),
            final(storage).spec_page_size() == old(storage).spec_page_size(),
            final(storage).spec_use_pool() == old(storage).spec_use_pool(),
            final(storage).pool_capacity() == old(storage).pool_capacity(),
            old(entry_counts)@.len() < 2 ==> done.is_ok() && final(storage).files() == old(
                storage,
            ).files() && final(entry_counts)@ == old(entry_counts)@,
            old(entry_counts)@.len() >= 2 && level_sound(
                old(storage).files(),
                db_name@,
                level,
                old(entry_counts)@,
            ) ==> {
                let count = old(entry_counts)@.len();
                let result = merged(
                    level_runs(old(storage).files(), db_name@, level, count),
                    discard_tombstones,
                );
                &&& done.is_ok()
                &&& result.len() <= usize::MAX
                &&& is_merge(
                    level_runs(old(storage).files(), db_name@, level, count),
                    discard_tombstones,
                    result,
                )
                &&& compaction_outcome(
                    old(storage).files(),
                    final(storage).files(),
                    db_name@,
                    level,
                    result,
                )
                &&& final(entry_counts)@ == if result.len() == 0 {
                    Seq::<Size>::empty()
                } else {
                    seq![result.len() as usize]
                }
            },
    ;
}

impl SortedStringTable for array_sst::Sst {
    fn write(&self, storage: &mut Storage, db_name: &str, level: Level, run: Run, entries: &[Entry]) -> (done:
        Result<(), StoreError>) {
        array_sst::Sst::write(self, storage, db_name, level, run, entries)
    }

    fn read(&self, storage: &Storage, db_name: &str, level: Level, run: Run) -> (entries: Result<
        Vec<Entry>,
        StoreError,
    >) {
        array_sst::Sst::read(self, storage, db_name, level, run)
    }

    fn get(
        &self,
        storage: &mut Storage,
        db_name: &str,
        level: Level,
        run: Run,
        key: Key,
        num_entries: Size,
    ) -> (found: Result<Option<Value>, StoreError>) {
        array_sst::Sst::get(self, storage, db_name, level, run, key, num_entries)
    }

    fn binary_search_get(
        &self,
        storage: &mut Storage,
        db_name: &str,
        level: Level,
        run: Run,
        key: Key,
        num_entries: Size,
    ) -> (found: Result<Option<Value>, StoreError>) {
        array_sst::Sst::binary_search_get(self, storage, db_name, level, run, key, num_entries)
    }

    fn scan(
        &self,
        storage: &mut Storage,
        db_name: &str,
        level: Level,
        run: Run,
        key_range: (Key, Key),
        num_entries: Size,
    ) -> (found: Result<Vec<Entry>, StoreError>) {
        array_sst::Sst::scan(self, storage, db_name, level, run, key_range, num_entries)
    }

    fn binary_search_scan(
        &self,
        storage: &mut Storage,
        db_name: &str,
        level: Level,
        run: Run,
        key_range: (Key, Key),
        num_entries: Size,
    ) -> (found: Result<Vec<Entry>, StoreError>) {
        array_sst::Sst::binary_search_scan(self, storage, db_name, level, run, key_range, num_entries)
    }

    fn len(&self, storage: &Storage, db_name: &str, level: Level, run: Run) -> (len: Result<
        Size,
        StoreError,
    >) {
        array_sst::Sst::len(self, storage, db_name, level, run)
    }

    fn compact(
        &self,
        storage: &mut Storage,
        db_name: &str,
        level: Level,
        entry_counts: &mut Vec<Size>,
        discard_tombstones: bool,
    ) -> (done: Result<(), StoreError>) {
        let count: usize = entry_counts.len();
        proof {
            if count >= 2 {
                lemma_compaction_outcome(
                    storage.files(),
                    db_name@,
                    level,
                    count as nat,
                    merged(level_runs(storage.files(), db_name@, level, count as nat), discard_tombstones),
                    storage.spec_page_size(),
                );
            }
        }
        array_sst::Sst::compact(self, storage, db_name, level, entry_counts, discard_tombstones)
    }
}

impl SortedStringTable for btree_sst::Sst {
    fn write(&self, storage: &mut Storage, db_name: &str, level: Level, run: Run, entries: &[Entry]) -> (done:
        Result<(), StoreError>) {
        proof {
            lemma_run_files_apart(db_name@, level, run);
        }
        btree_sst::Sst::write(self, storage, db_name, level, run, entries)
    }

    fn read(&self, storage: &Storage, db_name: &str, level: Level, run: Run) -> (entries: Result<
        Vec<Entry>,
        StoreError,
    >) {
        btree_sst::Sst::read(self, storage, db_name, level, run)
    }

    fn get(
        &self,
        storage: &mut Storage,
        db_name: &str,
        level: Level,
        run: Run,
        key: Key,
        num_entries: Size,
    ) -> (found: Result<Option<Value>, StoreError>) {
        btree_sst::Sst::get(self, storage, db_name, level, run, key, num_entries)
    }

    fn binary_search_get(
        &self,
        storage: &mut Storage,
        db_name: &str,
        level: Level,
        run: Run,
        key: Key,
        num_entries: Size,
    ) -> (found: Result<Option<Value>, StoreError>) {
        btree_sst::Sst::binary_search_get(self, storage, db_name, level, run, key, num_entries)
    }

    fn scan(
        &self,
        storage: &mut Storage,
        db_name: &str,
        level: Level,
        run: Run,
        key_range: (Key, Key),
        num_entries: Size,
    ) -> (found: Result<Vec<Entry>, StoreError>) {
        btree_sst::Sst::scan(self, storage, db_name, level, run, key_range, num_entries)
    }

    fn binary_search_scan(
        &self,
        storage: &mut Storage,
        db_name: &str,
        level: Level,
        run: Run,
        key_range: (Key, Key),
        num_entries: Size,
    ) -> (found: Result<Vec<Entry>, StoreError>) {
        btree_sst::Sst::binary_search_scan(self, storage, db_name, level, run, key_range, num_entries)
    }

    fn len(&self, storage: &Storage, db_name: &str, level: Level, run: Run) -> (len: Result<
        Size,
        StoreError,
    >) {
        btree_sst::Sst::len(self, storage, db_name, level, run)
    }

    fn compact(
        &self,
        storage: &mut Storage,
        db_name: &str,
        level: Level,
        entry_counts: &mut Vec<Size>,
        discard_tombstones: bool,
    ) -> (done: Result<(), StoreError>) {
        let count: usize = entry_counts.len();
        proof {
            if count >= 2 {
                lemma_compaction_outcome(
                    storage.files(),
                    db_name@,
                    level,
                    count as nat,
                    merged(level_runs(storage.files(), db_name@, level, count as nat), discard_tombstones),
                    storage.spec_page_size(),
                );
            }
        }
        btree_sst::Sst::compact(self, storage, db_name, level, entry_counts, discard_tombstones)
    }
}

/// Looks `key` up in one run, by the search that `algorithm` names.
pub fn search_run<T: SortedStringTable>(
    sst: &T,
    storage: &mut Storage,
    db_name: &str,
    algorithm: SstSearchAlgorithm,
    level: Level,
    run: Run,
    key: Key,
    num_entries: Size,
) -> (found: Result<Option<Value>, StoreError>)
    requires
        old(storage).wf(),
    ensures
        final(storage).wf(),
        final(storage).files() == old(storage).files(),
        final(storage).spec_page_size() == old(storage).spec_page_size(),
        final(storage).spec_use_pool() == old(storage).spec_use_pool(),
        final(storage).pool_capacity() == old(storage).pool_capacity(),
        ({
            let path = filename::spec_sst_path(db_name@, level, run);
            let files = old(storage).files();
            &&& num_entries == 0 ==> found == Ok::<Option<Value>, StoreError>(None)
            &&& num_entries > 0 && !files.contains_key(path) ==> found == Err::<
                Option<Value>,
                StoreError,
            >(StoreError::MissingFile)
            &&& files.contains_key(path) && run_file(files[path], num_entries as int) ==> found
                == Ok::<Option<Value>, StoreError>(lookup(entries_from_bytes(files[path]), key))
        }),
{
    match algorithm {
        SstSearchAlgorithm::Default => sst.get(storage, db_name, level, run, key, num_entries),
        SstSearchAlgorithm::BinarySearch => sst.binary_search_get(
            storage,
            db_name,
            level,
            run,
            key,
            num_entries,
        ),
    }
}

/// Scans one run for the keys in `key_range`, by the search that
/// `algorithm` names.
pub fn scan_run<T: SortedStringTable>(
    sst: &T,
    storage: &mut Storage,
    db_name: &str,
    algorithm: SstSearchAlgorithm,
    level: Level,
    run: Run,
    key_range: (Key, Key),
    num_entries: Size,
) -> (found: Result<Vec<Entry>, StoreError>)
    requires
        old(storage).wf(),
    ensures
        final(storage).wf(),
        final(storage).files() == old(storage).files(),
        final(storage).spec_page_size() == old(storage).spec_page_size(),
        final(storage).spec_use_pool() == old(storage).spec_use_pool(),
        final(storage).pool_capacity() == old(storage).pool_capacity(),
        ({
            let path = filename::spec_sst_path(db_name@, level, run);
            let files = old(storage).files();
            &&& num_entries == 0 ==> found.is_ok() && found.unwrap()@ == Seq::<Entry>::empty()
            &&& num_entries > 0 && !files.contains_key(path) ==> found == Err::<
                Vec<Entry>,
                StoreError,
            >(StoreError::MissingFile)
            &&& files.contains_key(path) && run_file(files[path], num_entries as int)
                ==> found.is_ok() && found.unwrap()@ == in_range(
                entries_from_bytes(files[path]),
                key_range.0,
                key_range.1,
            )
        }),
{
    match algorithm {
        SstSearchAlgorithm::Default => sst.scan(storage, db_name, level, run, key_range, num_entries),
        SstSearchAlgorithm::BinarySearch => sst.binary_search_scan(
            storage,
            db_name,
            level,
            run,
            key_range,
            num_entries,
        ),
    }
}

} // verus!
