//! Runs stored as plain arrays of entries: a key is found by binary search
//! over the pages of the run.

use crate::algorithm::strictly_ascending;
use crate::direct_io::page_of;
use crate::file_interface::Storage;
use crate::filename;
use crate::serde_entry::{
    deserialize, deserialize_entry_within_page, entries_bytes, entries_from_bytes, serialize,
};
use crate::merge_k_lists::{
    is_merge, kept, left_over, lemma_emitted, lemma_left_over_nonnegative, lemma_left_over_step,
    lemma_merge_is_unique, lemma_newest_at, lemma_newest_none, merged, newest_value, settled,
    split_at,
};
use crate::sst_util::holds_key;
use crate::types::TOMBSTONE_VALUE;
use crate::sst_util::{
    get_entries_at_page, is_lower_bound, is_upper_end, lemma_in_range_between_bounds, in_range, lemma_entry_in_page, lemma_lookup_at, lemma_page_entries, lookup, run_file,
};
use crate::system_info::{entries_per_page, spec_entries_per_page, valid_page_size, ENTRY_SIZE};
use crate::types::{Entry, Key, Level, Page, Run, Size, StoreError, Value};
use vstd::prelude::*;

verus! {

/// Row and column of position `index` in rows of `row_size`.
pub fn index_to_2d_index(row_size: usize, index: usize) -> (position: (usize, usize))
    requires
        row_size > 0,
    ensures
        position.0 == index / row_size,
        position.1 == index % row_size,
{
    (index / row_size, index % row_size)
}

/// The page of a file that was read last, kept so that the next entry of
/// the same page costs no further read.
pub struct PageCursor {
    loaded: bool,
    page_index: Page,
    bytes: Vec<u8>,
}

impl PageCursor {
    /// The cursor is empty or holds a page of the file at `path`.
    pub closed spec fn holds(&self, files: Map<Seq<char>, Seq<u8>>, path: Seq<char>, page_size: usize) -> bool {
        self.loaded ==> files.contains_key(path) && self.bytes@ == page_of(
            files[path],
            self.page_index as int,
            page_size as int,
        )
    }

    /// A cursor that holds a page of a file holds it whatever else changes.
    pub proof fn lemma_holds_frame(
        &self,
        files: Map<Seq<char>, Seq<u8>>,
        other: Map<Seq<char>, Seq<u8>>,
        path: Seq<char>,
        page_size: usize,
    )
        requires
            self.holds(files, path, page_size),
            other.contains_key(path) == files.contains_key(path),
            other[path] == files[path],
        ensures
            self.holds(other, path, page_size),
    {
    }

    /// A cursor that holds no page yet.
    pub fn new() -> (cursor: Self)
        ensures
            forall|files: Map<Seq<char>, Seq<u8>>, path: Seq<char>, page_size: usize|
                cursor.holds(files, path, page_size),
    {
        PageCursor { loaded: false, page_index: 0, bytes: Vec::new() }
    }

    /// The entry at position `index` of the file at `path`. The page of the
    /// entry is read unless the cursor holds it already.
    pub fn entry_at(&mut self, storage: &mut Storage, path: &str, index: usize) -> (entry: Result<
        Entry,
        StoreError,
    >)
        requires
            old(storage).wf(),
            old(self).holds(old(storage).files(), path@, old(storage).spec_page_size()),
        ensures
            final(storage).wf(),
            final(storage).files() == old(storage).files(),
            final(storage).spec_page_size() == old(storage).spec_page_size(),
            final(storage).spec_use_pool() == old(storage).spec_use_pool(),
            final(storage).pool_capacity() == old(storage).pool_capacity(),
            final(self).holds(old(storage).files(), path@, old(storage).spec_page_size()),
            ({
                let files = old(storage).files();
                if !files.contains_key(path@) {
                    entry == Err::<Entry, StoreError>(StoreError::MissingFile)
                } else if (index + 1) * 16 <= files[path@].len() {
                    entry == Ok::<Entry, StoreError>(entries_from_bytes(files[path@])[index as int])
                } else {
                    entry == Err::<Entry, StoreError>(StoreError::Corrupt)
                }
            }),
    {
        proof {
            storage.lemma_page_size();
        }
        let page_size: usize = storage.page_size();
        let per_page: usize = entries_per_page(page_size);
        let (page_index, slot) = index_to_2d_index(per_page, index);
        if !self.loaded || self.page_index != page_index {
            match storage.get_page(path, page_index) {
                Ok(bytes) => {
                    self.bytes = bytes;
                    self.page_index = page_index;
                    self.loaded = true;
                },
                Err(e) => {
                    return Err(e);
                },
            }
        }
        proof {
            let file = old(storage).files()[path@];
            let e = per_page as int;
            let ps = page_size as int;
            if (index + 1) * 16 <= file.len() {
                lemma_entry_in_page(file, index as int, page_size);
            } else {
                vstd::arithmetic::div_mod::lemma_fundamental_div_mod(index as int, e);
                assert(page_index * ps + (slot + 1) * 16 == 16 * (index + 1) && page_index * ps >= 0
                    && (page_index + 1) * ps >= page_index * ps) by (nonlinear_arith)
                    requires
                        index == e * page_index + slot,
                        ps == 16 * e,
                        page_index >= 0,
                        e >= 1,
                ;
                let len = file.len() as int;
                let from = crate::direct_io::at_most(page_index * ps, len);
                let to = crate::direct_io::at_most((page_index + 1) * ps, len);
                assert(self.bytes@ == file.subrange(from, to));
                assert(self.bytes@.len() == to - from);
                assert(self.bytes@.len() < (slot + 1) * 16);
            }
        }
        if slot >= self.bytes.len() / ENTRY_SIZE {
            return Err(StoreError::Corrupt);
        }
        deserialize_entry_within_page(self.bytes.as_slice(), slot)
    }
}

/// The files that are left when runs `0` to `count - 1` of a level are
/// deleted.
pub open spec fn without_runs(
    files: Map<Seq<char>, Seq<u8>>,
    db_name: Seq<char>,
    level: Level,
    count: nat,
) -> Map<Seq<char>, Seq<u8>>
    decreases count,
{
    if count == 0 {
        files
    } else {
        without_runs(files, db_name, level, (count - 1) as nat).remove(
            filename::spec_sst_path(db_name, level, (count - 1) as usize),
        )
    }
}

/// The files after the first `count` runs of a level were replaced by the
/// single run `merged`, or by nothing where `merged` is empty.
pub open spec fn compacted_files(
    files: Map<Seq<char>, Seq<u8>>,
    db_name: Seq<char>,
    level: Level,
    count: nat,
    merged: Seq<Entry>,
) -> Map<Seq<char>, Seq<u8>> {
    let scratch = filename::spec_sst_compaction_path(db_name, level);
    let cleared = without_runs(files, db_name, level, count).remove(scratch);
    if merged.len() == 0 {
        cleared
    } else {
        cleared.insert(filename::spec_sst_path(db_name, level, 0), entries_bytes(merged))
    }
}

/// The entries of the first `count` runs of a level, as their files hold
/// them.
pub open spec fn level_runs(
    files: Map<Seq<char>, Seq<u8>>,
    db_name: Seq<char>,
    level: Level,
    count: nat,
) -> Seq<Seq<Entry>> {
    Seq::new(
        count,
        |r: int| entries_from_bytes(files[filename::spec_sst_path(db_name, level, r as usize)]),
    )
}

/// Each of the runs of a level is a file of as many entries as recorded,
/// in strictly ascending order.
pub open spec fn level_sound(
    files: Map<Seq<char>, Seq<u8>>,
    db_name: Seq<char>,
    level: Level,
    counts: Seq<Size>,
) -> bool {
    forall|r: int|
        0 <= r < counts.len() ==> files.contains_key(
            #[trigger] filename::spec_sst_path(db_name, level, r as usize),
        ) && run_file(files[filename::spec_sst_path(db_name, level, r as usize)], counts[r] as int)
}

/// Deleting runs does not touch the scratch file of the level.
pub proof fn lemma_without_runs_keeps_scratch(
    files: Map<Seq<char>, Seq<u8>>,
    db_name: Seq<char>,
    level: Level,
    count: nat,
)
    ensures
        ({
            let scratch = filename::spec_sst_compaction_path(db_name, level);
            let after = without_runs(files, db_name, level, count);
            &&& after.contains_key(scratch) == files.contains_key(scratch)
            &&& files.contains_key(scratch) ==> after[scratch] == files[scratch]
        }),
    decreases count,
{
    if count > 0 {
        lemma_without_runs_keeps_scratch(files, db_name, level, (count - 1) as nat);
        filename::lemma_compaction_path_is_no_run(db_name, level, (count - 1) as usize);
    }
}

/// Runs stored as arrays of entries.
pub struct Sst;

impl Sst {
    /// Writes `entries` as run `run` of level `level`.
    pub fn write(&self, storage: &mut Storage, db_name: &str, level: Level, run: Run, entries: &[Entry]) -> (done:
        Result<(), StoreError>)
        requires
            old(storage).wf(),
        ensures
            done.is_ok(),
            final(storage).wf(),
            final(storage).files() == old(storage).files().insert(
                filename::spec_sst_path(db_name@, level, run),
                entries_bytes(entries@),
            ),
            final(storage).spec_page_size() == old(storage).spec_page_size(),
            final(storage).spec_use_pool() == old(storage).spec_use_pool(),
            final(storage).pool_capacity() == old(storage).pool_capacity(),
    {
        let path = filename::sst_path(db_name, level, run);
        storage.write_file(path.as_str(), serialize(entries));
        Ok(())
    }

    /// All entries of run `run` of level `level`. Fails where the file is
    /// missing, and where it does not hold whole entries.
    pub fn read(&self, storage: &Storage, db_name: &str, level: Level, run: Run) -> (entries: Result<
        Vec<Entry>,
        StoreError,
    >)
        requires
            storage.wf(),
        ensures
            ({
                let path = filename::spec_sst_path(db_name@, level, run);
                let files = storage.files();
                match entries {
                    Ok(list) => files.contains_key(path) && files[path].len() % 16 == 0 && list@
                        == entries_from_bytes(files[path]),
                    Err(e) => if files.contains_key(path) {
                        files[path].len() % 16 != 0 && e == StoreError::Corrupt
                    } else {
                        e == StoreError::MissingFile
                    },
                }
            }),
    {
        let path = filename::sst_path(db_name, level, run);
        match storage.read_file(path.as_str()) {
            Ok(bytes) => deserialize(bytes.as_slice()),
            Err(e) => Err(e),
        }
    }

    /// Number of whole entries in the file of run `run` of level `level`.
    pub fn len(&self, storage: &Storage, db_name: &str, level: Level, run: Run) -> (len: Result<
        Size,
        StoreError,
    >)
        requires
            storage.wf(),
        ensures
            ({
                let path = filename::spec_sst_path(db_name@, level, run);
                let files = storage.files();
                match len {
                    Ok(n) => files.contains_key(path) && n == files[path].len() / 16,
                    Err(e) => !files.contains_key(path) && e == StoreError::MissingFile,
                }
            }),
    {
        let path = filename::sst_path(db_name, level, run);
        match storage.file_len(path.as_str()) {
            Some(bytes) => Ok(bytes / ENTRY_SIZE),
            None => Err(StoreError::MissingFile),
        }
    }

    /// The value that run `run` of level `level` holds for `key`, found by
    /// binary search over its `num_entries` entries. A tombstone is returned
    /// like any other value.
    pub fn get(
        &self,
        storage: &mut Storage,
        db_name: &str,
        level: Level,
        run: Run,
        key: Key,
        num_entries: Size,
    ) -> (found: Result<Option<Value>, StoreError>)
        requires
            old(storage).wf(),
        ensures
            final(storage).wf(),
            final(storage).files() == old(storage).files(),
            final(storage).spec_page_size() == old(storage).spec_page_size(),
            final(storage).spec_use_pool() == old(storage).spec_use_pool(),
            final(storage).pool_capacity() == old(storage).pool_capacity(),
            ({
                let path = filename::spec_sst_path(db_name@, level, run);
                let files = old(storage).files();
                &&& num_entries == 0 ==> found == Ok::<Option<Value>, StoreError>(None)
                &&& num_entries > 0 && !files.contains_key(path) ==> found == Err::<
                    Option<Value>,
                    StoreError,
                >(StoreError::MissingFile)
                &&& files.contains_key(path) && run_file(files[path], num_entries as int) ==> found
                    == Ok::<Option<Value>, StoreError>(lookup(entries_from_bytes(files[path]), key))
            }),
    {
        let path = filename::sst_path(db_name, level, run);
        let ghost files = storage.files();
        let ghost whole = entries_from_bytes(files[path@]);
        let ghost sound = files.contains_key(path@) && run_file(files[path@], num_entries as int);
        let mut cursor = PageCursor::new();
        let mut left: usize = 0;
        let mut right: usize = num_entries;
        while left < right
            invariant
                storage.wf(),
                storage.files() == files,
                files == old(storage).files(),
                storage.spec_page_size() == old(storage).spec_page_size(),
                storage.spec_use_pool() == old(storage).spec_use_pool(),
                storage.pool_capacity() == old(storage).pool_capacity(),
                path@ == filename::spec_sst_path(db_name@, level, run),
                whole == entries_from_bytes(files[path@]),
                sound == (files.contains_key(path@) && run_file(files[path@], num_entries as int)),
                cursor.holds(files, path@, storage.spec_page_size()),
                0 <= left <= right <= num_entries,
                left == 0 && right == num_entries || files.contains_key(path@),
                sound ==> forall|i: int| 0 <= i < left ==> (#[trigger] whole[i]).0 < key,
                sound ==> forall|i: int| right <= i < num_entries ==> (#[trigger] whole[i]).0 > key,
            decreases right - left,
        {
            let middle: usize = left + (right - 1 - left) / 2;
            let (middle_key, middle_value) = match cursor.entry_at(storage, path.as_str(), middle) {
                Ok(entry) => entry,
                Err(e) => {
                    return Err(e);
                },
            };
            if middle_key < key {
                left = middle + 1;
            } else if middle_key > key {
                right = middle;
            } else {
                proof {
                    if sound {
                        lemma_lookup_at(whole, middle as int);
                    }
                }
                return Ok(Some(middle_value));
            }
        }
        proof {
            if sound {
                if crate::sst_util::holds_key(whole, key) {
                    let i = choose|i: int| 0 <= i < whole.len() && (#[trigger] whole[i]).0 == key;
                    assert(false);
                }
            }
        }
        Ok(None)
    }

    /// Like `get`: an array run knows no other search.
    pub fn binary_search_get(
        &self,
        storage: &mut Storage,
        db_name: &str,
        level: Level,
        run: Run,
        key: Key,
        num_entries: Size,
    ) -> (found: Result<Option<Value>, StoreError>)
        requires
            old(storage).wf(),
        ensures
            final(storage).wf(),
            final(storage).files() == old(storage).files(),
            final(storage).spec_page_size() == old(storage).spec_page_size(),
            final(storage).spec_use_pool() == old(storage).spec_use_pool(),
            final(storage).pool_capacity() == old(storage).pool_capacity(),
            ({
                let path = filename::spec_sst_path(db_name@, level, run);
                let files = old(storage).files();
                &&& num_entries == 0 ==> found == Ok::<Option<Value>, StoreError>(None)
                &&& num_entries > 0 && !files.contains_key(path) ==> found == Err::<
                    Option<Value>,
                    StoreError,
                >(StoreError::MissingFile)
                &&& files.contains_key(path) && run_file(files[path], num_entries as int) ==> found
                    == Ok::<Option<Value>, StoreError>(lookup(entries_from_bytes(files[path]), key))
            }),
    {
        self.get(storage, db_name, level, run, key, num_entries)
    }

    /// Position of the first entry of a run that is not below `key`, found
    /// by binary search over its `num_entries` entries.
    pub fn lower_bound(
        &self,
        storage: &mut Storage,
        db_name: &str,
        level: Level,
        run: Run,
        key: Key,
        num_entries: Size,
    ) -> (found: Result<usize, StoreError>)
        requires
            old(storage).wf(),
        ensures
            final(storage).wf(),
            final(storage).files() == old(storage).files(),
            final(storage).spec_page_size() == old(storage).spec_page_size(),
            final(storage).spec_use_pool() == old(storage).spec_use_pool(),
            final(storage).pool_capacity() == old(storage).pool_capacity(),
            ({
                let path = filename::spec_sst_path(db_name@, level, run);
                let files = old(storage).files();
                &&& found is Ok ==> found.unwrap() <= num_entries
                &&& num_entries == 0 ==> found == Ok::<usize, StoreError>(0)
                &&& num_entries > 0 && !files.contains_key(path) ==> found == Err::<
                    usize,
                    StoreError,
                >(StoreError::MissingFile)
                &&& files.contains_key(path) && run_file(files[path], num_entries as int)
                    ==> found is Ok && is_lower_bound(
                    entries_from_bytes(files[path]),
                    key,
                    found.unwrap() as int,
                )
            }),
    {
        let path = filename::sst_path(db_name, level, run);
        let ghost files = storage.files();
        let ghost whole = entries_from_bytes(files[path@]);
        let ghost sound = files.contains_key(path@) && run_file(files[path@], num_entries as int);
        let mut cursor = PageCursor::new();
        let mut left: usize = 0;
        let mut right: usize = num_entries;
        while left < right
            invariant
                storage.wf(),
                storage.files() == files,
                files == old(storage).files(),
                storage.spec_page_size() == old(storage).spec_page_size(),
                storage.spec_use_pool() == old(storage).spec_use_pool(),
                storage.pool_capacity() == old(storage).pool_capacity(),
                path@ == filename::spec_sst_path(db_name@, level, run),
                whole == entries_from_bytes(files[path@]),
                sound == (files.contains_key(path@) && run_file(files[path@], num_entries as int)),
                cursor.holds(files, path@, storage.spec_page_size()),
                0 <= left <= right <= num_entries,
                left == 0 && right == num_entries || files.contains_key(path@),
                sound ==> forall|i: int| 0 <= i < left ==> (#[trigger] whole[i]).0 < key,
                sound ==> forall|i: int| right <= i < num_entries ==> (#[trigger] whole[i]).0 >= key,
            decreases right - left,
        {
            let middle: usize = left + (right - left) / 2;
            let (middle_key, _) = match cursor.entry_at(storage, path.as_str(), middle) {
                Ok(entry) => entry,
                Err(e) => {
                    return Err(e);
                },
            };
            if middle_key < key {
                left = middle + 1;
            } else {
                right = middle;
            }
        }
        Ok(left)
    }

    /// Position just behind the last entry of a run that is not above
    /// `key`, found by binary search over its `num_entries` entries.
    pub fn upper_end(
        &self,
        storage: &mut Storage,
        db_name: &str,
        level: Level,
        run: Run,
        key: Key,
        num_entries: Size,
    ) -> (found: Result<usize, StoreError>)
        requires
            old(storage).wf(),
        ensures
            final(storage).wf(),
            final(storage).files() == old(storage).files(),
            final(storage).spec_page_size() == old(storage).spec_page_size(),
            final(storage).spec_use_pool() == old(storage).spec_use_pool(),
            final(storage).pool_capacity() == old(storage).pool_capacity(),
            ({
                let path = filename::spec_sst_path(db_name@, level, run);
                let files = old(storage).files();
                &&& found is Ok ==> found.unwrap() <= num_entries
                &&& num_entries == 0 ==> found == Ok::<usize, StoreError>(0)
                &&& num_entries > 0 && !files.contains_key(path) ==> found == Err::<
                    usize,
                    StoreError,
                >(StoreError::MissingFile)
                &&& files.contains_key(path) && run_file(files[path], num_entries as int)
                    ==> found is Ok && is_upper_end(
                    entries_from_bytes(files[path]),
                    key,
                    found.unwrap() as int,
                )
            }),
    {
        let path = filename::sst_path(db_name, level, run);
        let ghost files = storage.files();
        let ghost whole = entries_from_bytes(files[path@]);
        let ghost sound = files.contains_key(path@) && run_file(files[path@], num_entries as int);
        let mut cursor = PageCursor::new();
        let mut left: usize = 0;
        let mut right: usize = num_entries;
        while left < right
            invariant
                storage.wf(),
                storage.files() == files,
                files == old(storage).files(),
                storage.spec_page_size() == old(storage).spec_page_size(),
                storage.spec_use_pool() == old(storage).spec_use_pool(),
                storage.pool_capacity() == old(storage).pool_capacity(),
                path@ == filename::spec_sst_path(db_name@, level, run),
                whole == entries_from_bytes(files[path@]),
                sound == (files.contains_key(path@) && run_file(files[path@], num_entries as int)),
                cursor.holds(files, path@, storage.spec_page_size()),
                0 <= left <= right <= num_entries,
                left == 0 && right == num_entries || files.contains_key(path@),
                sound ==> forall|i: int| 0 <= i < left ==> (#[trigger] whole[i]).0 <= key,
                sound ==> forall|i: int| right <= i < num_entries ==> (#[trigger] whole[i]).0 > key,
            decreases right - left,
        {
            let middle: usize = left + (right - left) / 2;
            let (middle_key, _) = match cursor.entry_at(storage, path.as_str(), middle) {
                Ok(entry) => entry,
                Err(e) => {
                    return Err(e);
                },
            };
            if middle_key > key {
                right = middle;
            } else {
                left = middle + 1;
            }
        }
        Ok(right)
    }

    /// The entries of run `run` of level `level` whose keys lie in
    /// `key_range`, both ends included, in ascending order. Two binary
    /// searches find the first and the last of them; the pages from one to
    /// the other give the entries.
    pub fn scan(
        &self,
        storage: &mut Storage,
        db_name: &str,
        level: Level,
        run: Run,
        key_range: (Key, Key),
        num_entries: Size,
    ) -> (found: Result<Vec<Entry>, StoreError>)
        requires
            old(storage).wf(),
        ensures
            final(storage).wf(),
            final(storage).files() == old(storage).files(),
            final(storage).spec_page_size() == old(storage).spec_page_size(),
            final(storage).spec_use_pool() == old(storage).spec_use_pool(),
            final(storage).pool_capacity() == old(storage).pool_capacity(),
            ({
                let path = filename::spec_sst_path(db_name@, level, run);
                let files = old(storage).files();
                &&& num_entries == 0 ==> found.is_ok() && found.unwrap()@ == Seq::<Entry>::empty()
                &&& num_entries > 0 && !files.contains_key(path) ==> found == Err::<
                    Vec<Entry>,
                    StoreError,
                >(StoreError::MissingFile)
                &&& files.contains_key(path) && run_file(files[path], num_entries as int)
                    ==> found.is_ok() && found.unwrap()@ == in_range(
                    entries_from_bytes(files[path]),
                    key_range.0,
                    key_range.1,
                )
            }),
    {
        let (key1, key2) = key_range;
        let ghost files = storage.files();
        let ghost path = filename::spec_sst_path(db_name@, level, run);
        let ghost whole = entries_from_bytes(files[path]);
        let ghost sound = files.contains_key(path) && run_file(files[path], num_entries as int);
        let lowerbound_index: usize = match self.lower_bound(
            storage,
            db_name,
            level,
            run,
            key1,
            num_entries,
        ) {
            Ok(index) => index,
            Err(e) => {
                return Err(e);
            },
        };
        let end_index: usize = match self.upper_end(storage, db_name, level, run, key2, num_entries) {
            Ok(index) => index,
            Err(e) => {
                return Err(e);
            },
        };
        proof {
            if sound {
                lemma_in_range_between_bounds(
                    whole,
                    key1,
                    key2,
                    lowerbound_index as int,
                    end_index as int,
                );
            }
        }
        if lowerbound_index >= end_index {
            return Ok(Vec::new());
        }
        self.collect_range(storage, db_name, level, run, lowerbound_index, end_index, num_entries)
    }

    /// The entries at positions `from` up to, but not including, `to` of a
    /// run of `num_entries` entries, gathered page by page: the tail of the
    /// first page, the pages between, and the head of the last page.
    pub fn collect_range(
        &self,
        storage: &mut Storage,
        db_name: &str,
        level: Level,
        run: Run,
        from: usize,
        to: usize,
        num_entries: Size,
    ) -> (found: Result<Vec<Entry>, StoreError>)
        requires
            old(storage).wf(),
        ensures
            final(storage).wf(),
            final(storage).files() == old(storage).files(),
            final(storage).spec_page_size() == old(storage).spec_page_size(),
            final(storage).spec_use_pool() == old(storage).spec_use_pool(),
            final(storage).pool_capacity() == old(storage).pool_capacity(),
            ({
                let path = filename::spec_sst_path(db_name@, level, run);
                let files = old(storage).files();
                files.contains_key(path) && run_file(files[path], num_entries as int) && from <= to
                    <= num_entries ==> found.is_ok() && found.unwrap()@ == entries_from_bytes(
                    files[path],
                ).subrange(from as int, to as int)
            }),
    {
        let ghost path = filename::spec_sst_path(db_name@, level, run);
        let ghost files = storage.files();
        let ghost whole = entries_from_bytes(files[path]);
        let ghost sound = files.contains_key(path) && run_file(files[path], num_entries as int);
        if from >= to || to > num_entries {
            proof {
                if sound && from == to && to <= num_entries {
                    assert(whole.len() == num_entries);
                    assert(whole.subrange(from as int, to as int) =~= Seq::<Entry>::empty());
                }
            }
            return Ok(Vec::new());
        }
        proof {
            storage.lemma_page_size();
        }
        let lowerbound_index: usize = from;
        let end_index: usize = to;
        let page_size: usize = storage.page_size();
        let per_page: usize = entries_per_page(page_size);
        let (lowerbound_page_index, lowerbound_within_page_index) = index_to_2d_index(
            per_page,
            lowerbound_index,
        );
        let (upperbound_page_index, upperbound_within_page_index) = index_to_2d_index(
            per_page,
            end_index - 1,
        );
        proof {
            let e = per_page as int;
            vstd::arithmetic::div_mod::lemma_fundamental_div_mod(lowerbound_index as int, e);
            vstd::arithmetic::div_mod::lemma_fundamental_div_mod(end_index - 1, e);
            vstd::arithmetic::div_mod::lemma_div_is_ordered(
                lowerbound_index as int,
                end_index - 1,
                e,
            );
        }
        let mut results: Vec<Entry> = Vec::new();
        let mut page_index: usize = lowerbound_page_index;
        // Position in the run of the next entry to gather.
        let ghost mut gathered: int = lowerbound_index as int;
        while page_index <= upperbound_page_index
            invariant
                storage.wf(),
                storage.files() == files,
                files == old(storage).files(),
                storage.spec_page_size() == old(storage).spec_page_size(),
                storage.spec_page_size() == page_size,
                storage.spec_use_pool() == old(storage).spec_use_pool(),
                storage.pool_capacity() == old(storage).pool_capacity(),
                valid_page_size(page_size),
                per_page == spec_entries_per_page(page_size),
                per_page >= 1,
                path == filename::spec_sst_path(db_name@, level, run),
                whole == entries_from_bytes(files[path]),
                sound == (files.contains_key(path) && run_file(files[path], num_entries as int)),
                0 <= lowerbound_index < end_index <= num_entries,
                lowerbound_page_index == lowerbound_index / per_page,
                lowerbound_within_page_index == lowerbound_index % per_page,
                upperbound_page_index == (end_index - 1) / (per_page as int),
                upperbound_within_page_index == (end_index - 1) % (per_page as int),
                lowerbound_page_index <= page_index <= upperbound_page_index + 1,
                sound ==> lowerbound_index <= gathered <= end_index,
                sound && page_index <= upperbound_page_index ==> gathered == (if page_index
                    == lowerbound_page_index {
                    lowerbound_index as int
                } else {
                    page_index * per_page
                }),
                sound && page_index == upperbound_page_index + 1 ==> gathered == end_index,
                sound ==> results@ == whole.subrange(lowerbound_index as int, gathered),
            decreases upperbound_page_index + 1 - page_index,
        {
            let entries = match get_entries_at_page(storage, db_name, level, run, page_index) {
                Ok(list) => list,
                Err(e) => {
                    proof {
                        if sound {
                            lemma_page_entries(files[path], page_index as int, page_size);
                        }
                    }
                    return Err(e);
                },
            };
            let from: usize = if page_index == lowerbound_page_index {
                lowerbound_within_page_index
            } else {
                0
            };
            let wanted: usize = if page_index == upperbound_page_index {
                upperbound_within_page_index + 1
            } else {
                per_page
            };
            let to: usize = if wanted < entries.len() {
                wanted
            } else {
                entries.len()
            };
            let ghost base: int = page_index * per_page;
            proof {
                let e = per_page as int;
                let n = num_entries as int;
                vstd::arithmetic::div_mod::lemma_fundamental_div_mod(lowerbound_index as int, e);
                vstd::arithmetic::div_mod::lemma_fundamental_div_mod(end_index - 1, e);
                assert(base >= 0 && (page_index + 1) * e == base + e) by (nonlinear_arith)
                    requires
                        base == page_index * e,
                        page_index >= 0,
                        e >= 1,
                ;
                assert(page_index < upperbound_page_index ==> base + e <= upperbound_page_index * e)
                    by (nonlinear_arith)
                    requires
                        base == page_index * e,
                        e >= 1,
                ;
                assert(page_index > lowerbound_page_index ==> base >= lowerbound_page_index * e + e)
                    by (nonlinear_arith)
                    requires
                        base == page_index * e,
                        e >= 1,
                ;
                if sound {
                    lemma_page_entries(files[path], page_index as int, page_size);
                    assert(whole.len() == n);
                    assert(entries@ == whole.subrange(
                        crate::direct_io::at_most(base, n),
                        crate::direct_io::at_most(base + e, n),
                    ));
                    assert(base == e * page_index) by (nonlinear_arith)
                        requires
                            base == page_index * e,
                    ;
                    assert(gathered == base + from);
                    assert(base + wanted <= n);
                    assert(to == wanted);
                    assert(from <= to);
                    assert forall|j: int| 0 <= j < entries@.len() implies #[trigger] entries@[j]
                        == whole[base + j] by {}
                }
            }
            let mut slot: usize = from;
            while slot < to
                invariant
                    from <= slot,
                    to <= entries@.len(),
                    sound ==> slot <= to,
                    sound ==> gathered == base + slot,
                    sound ==> base + to <= whole.len(),
                    sound ==> lowerbound_index <= gathered,
                    sound ==> forall|j: int|
                        0 <= j < entries@.len() ==> #[trigger] entries@[j] == whole[base + j],
                    sound ==> results@ == whole.subrange(lowerbound_index as int, gathered),
                decreases to - slot,
            {
                results.push(entries[slot]);
                proof {
                    if sound {
                        assert(entries@[slot as int] == whole[base + slot]);
                        assert(results@ =~= whole.subrange(lowerbound_index as int, gathered + 1));
                        gathered = gathered + 1;
                    }
                }
                slot += 1;
            }
            page_index += 1;
        }
        Ok(results)
    }

    /// Like `scan`: an array run knows no other search.
    pub fn binary_search_scan(
        &self,
        storage: &mut Storage,
        db_name: &str,
        level: Level,
        run: Run,
        key_range: (Key, Key),
        num_entries: Size,
    ) -> (found: Result<Vec<Entry>, StoreError>)
        requires
            old(storage).wf(),
        ensures
            final(storage).wf(),
            final(storage).files() == old(storage).files(),
            final(storage).spec_page_size() == old(storage).spec_page_size(),
            final(storage).spec_use_pool() == old(storage).spec_use_pool(),
            final(storage).pool_capacity() == old(storage).pool_capacity(),
            ({
                let path = filename::spec_sst_path(db_name@, level, run);
                let files = old(storage).files();
                &&& num_entries == 0 ==> found.is_ok() && found.unwrap()@ == Seq::<Entry>::empty()
                &&& num_entries > 0 && !files.contains_key(path) ==> found == Err::<
                    Vec<Entry>,
                    StoreError,
                >(StoreError::MissingFile)
                &&& files.contains_key(path) && run_file(files[path], num_entries as int)
                    ==> found.is_ok() && found.unwrap()@ == in_range(
                    entries_from_bytes(files[path]),
                    key_range.0,
                    key_range.1,
                )
            }),
    {
        self.scan(storage, db_name, level, run, key_range, num_entries)
    }

    /// Merges the runs of level `level` into the scratch file of the level.
    /// Every run is read through a buffer of one page; of the entries at
    /// the heads of the runs the one with the smallest key is taken, and of
    /// equal keys the one of the youngest run; entries that follow with
    /// the same key are older and are dropped. What is taken is written
    /// out a page at a time. Returns the number of entries written.
    pub fn merge_to_scratch(
        &self,
        storage: &mut Storage,
        db_name: &str,
        level: Level,
        entry_counts: &Vec<Size>,
        discard_tombstones: bool,
    ) -> (written: Result<usize, StoreError>)
        requires
            old(storage).wf(),
        ensures
            final(storage).wf(),
            final(storage).spec_page_size() == old(storage).spec_page_size(),
            final(storage).spec_use_pool() == old(storage).spec_use_pool(),
            final(storage).pool_capacity() == old(storage).pool_capacity(),
            final(storage).files().remove(filename::spec_sst_compaction_path(db_name@, level)) == old(
                storage,
            ).files().remove(filename::spec_sst_compaction_path(db_name@, level)),
            level_sound(old(storage).files(), db_name@, level, entry_counts@) ==> {
                let result = merged(
                    level_runs(old(storage).files(), db_name@, level, entry_counts@.len()),
                    discard_tombstones,
                );
                &&& written is Ok
                &&& written.unwrap() == result.len()
                &&& is_merge(
                    level_runs(old(storage).files(), db_name@, level, entry_counts@.len()),
                    discard_tombstones,
                    result,
                )
                &&& final(storage).files() == old(storage).files().insert(
                    filename::spec_sst_compaction_path(db_name@, level),
                    entries_bytes(result),
                )
            },
    {
        proof {
            storage.lemma_page_size();
        }
        let count: usize = entry_counts.len();
        let ghost files0 = storage.files();
        let ghost name = db_name@;
        let ghost counts = entry_counts@;
        let ghost sound = level_sound(files0, name, level, counts);
        let ghost all = level_runs(files0, name, level, count as nat);
        let page_size: usize = storage.page_size();
        let per_page: usize = entries_per_page(page_size);
        let scratch = filename::sst_compaction_path(db_name, level);
        storage.write_file(scratch.as_str(), Vec::new());
        let ghost files1 = storage.files();
        let mut paths: Vec<String> = Vec::new();
        let mut cursors: Vec<PageCursor> = Vec::new();
        let mut next: Vec<usize> = Vec::new();
        let mut run: usize = 0;
        while run < count
            invariant
                0 <= run <= count,
                paths@.len() == run,
                cursors@.len() == run,
                next@.len() == run,
                forall|r: int| 0 <= r < run ==> (#[trigger] paths@[r])@ == filename::spec_sst_path(
                    name,
                    level,
                    r as usize,
                ),
                forall|r: int|
                    0 <= r < run ==> (#[trigger] cursors@[r]).holds(files1, paths@[r]@, page_size),
                forall|r: int| 0 <= r < run ==> (#[trigger] next@[r]) == 0,
                name == db_name@,
            decreases count - run,
        {
            paths.push(filename::sst_path(db_name, level, run));
            cursors.push(PageCursor::new());
            next.push(0);
            run += 1;
        }
        let mut output_buffer: Vec<Entry> = Vec::new();
        let ghost mut flushed: Seq<Entry> = Seq::empty();
        let mut recent_key: Option<Key> = None;
        proof {
            assert(entries_bytes(Seq::<Entry>::empty()) =~= Seq::<u8>::empty());
            lemma_left_over_nonnegative(counts, next@);
            if sound {
                assert forall|r: int| 0 <= r < count implies all[r].len() == counts[r]
                    && strictly_ascending(#[trigger] all[r]) by {
                    assert(files0.contains_key(filename::spec_sst_path(name, level, r as usize)));
                }
            }
        }
        loop
            invariant
                storage.wf(),
                storage.spec_page_size() == old(storage).spec_page_size(),
                storage.spec_page_size() == page_size,
                storage.spec_use_pool() == old(storage).spec_use_pool(),
                storage.pool_capacity() == old(storage).pool_capacity(),
                valid_page_size(page_size),
                per_page == spec_entries_per_page(page_size),
                per_page >= 1,
                files0 == old(storage).files(),
                name == db_name@,
                counts == entry_counts@,
                count == counts.len(),
                sound == level_sound(files0, name, level, counts),
                all == level_runs(files0, name, level, count as nat),
                scratch@ == filename::spec_sst_compaction_path(name, level),
                storage.files() == files0.insert(scratch@, entries_bytes(flushed)),
                paths@.len() == count,
                cursors@.len() == count,
                next@.len() == count,
                forall|r: int| 0 <= r < count ==> (#[trigger] paths@[r])@ == filename::spec_sst_path(
                    name,
                    level,
                    r as usize,
                ),
                forall|r: int|
                    0 <= r < count ==> (#[trigger] cursors@[r]).holds(
                        storage.files(),
                        paths@[r]@,
                        page_size,
                    ),
                forall|r: int| 0 <= r < count ==> (#[trigger] next@[r]) <= counts[r],
                sound ==> forall|r: int|
                    0 <= r < count ==> all[r].len() == counts[r] && strictly_ascending(
                        #[trigger] all[r],
                    ),
                sound ==> strictly_ascending(flushed + output_buffer@),
                sound && recent_key is None ==> (flushed + output_buffer@).len() == 0 && forall|
                    r: int,
                | 0 <= r < count ==> (#[trigger] next@[r]) == 0,
                sound && recent_key is Some ==> settled(
                    all,
                    discard_tombstones,
                    flushed + output_buffer@,
                    recent_key.unwrap(),
                ) && split_at(all, next@, recent_key.unwrap()),
                left_over(counts, next@) >= 0,
            ensures
                forall|r: int| 0 <= r < count ==> (#[trigger] next@[r]) == counts[r],
            decreases left_over(counts, next@),
        {
            let mut best: Option<(usize, Entry)> = None;
            let mut r: usize = 0;
            while r < count
                invariant
                    storage.wf(),
                    storage.spec_page_size() == old(storage).spec_page_size(),
                    storage.spec_page_size() == page_size,
                    storage.spec_use_pool() == old(storage).spec_use_pool(),
                    storage.pool_capacity() == old(storage).pool_capacity(),
                    files0 == old(storage).files(),
                    name == db_name@,
                    counts == entry_counts@,
                    count == counts.len(),
                    sound == level_sound(files0, name, level, counts),
                    all == level_runs(files0, name, level, count as nat),
                    scratch@ == filename::spec_sst_compaction_path(name, level),
                    storage.files() == files0.insert(scratch@, entries_bytes(flushed)),
                    paths@.len() == count,
                    cursors@.len() == count,
                    next@.len() == count,
                    forall|q: int|
                        0 <= q < count ==> (#[trigger] paths@[q])@ == filename::spec_sst_path(
                            name,
                            level,
                            q as usize,
                        ),
                    forall|q: int|
                        0 <= q < count ==> (#[trigger] cursors@[q]).holds(
                            storage.files(),
                            paths@[q]@,
                            page_size,
                        ),
                    forall|q: int| 0 <= q < count ==> (#[trigger] next@[q]) <= counts[q],
                    sound ==> forall|q: int|
                        0 <= q < count ==> all[q].len() == counts[q] && strictly_ascending(
                            #[trigger] all[q],
                        ),
                    0 <= r <= count,
                    match best {
                        Some((b, entry)) => b < r && next@[b as int] < counts[b as int] && (sound
                            ==> entry == all[b as int][next@[b as int] as int] && forall|q: int|
                            0 <= q < r && (#[trigger] next@[q]) < counts[q] ==> {
                                let theirs = all[q][next@[q] as int].0;
                                theirs > entry.0 || (theirs == entry.0 && q <= b)
                            }),
                        None => forall|q: int| 0 <= q < r ==> (#[trigger] next@[q]) == counts[q],
                    },
                decreases count - r,
            {
                if next[r] < entry_counts[r] {
                    let position: usize = next[r];
                    proof {
                        filename::lemma_compaction_path_is_no_run(name, level, r);
                        if sound {
                            let at: int = r as int;
                            assert(files0.contains_key(
                                filename::spec_sst_path(name, level, at as usize),
                            ));
                            assert(all[at] == entries_from_bytes(
                                files0[filename::spec_sst_path(name, level, at as usize)],
                            ));
                        }
                    }
                    let ghost before_cursors = cursors@;
                    let ghost before_files = storage.files();
                    let found = cursors[r].entry_at(storage, paths[r].as_str(), position);
                    proof {
                        assert forall|q: int| 0 <= q < count implies (#[trigger] cursors@[q]).holds(
                            storage.files(),
                            paths@[q]@,
                            page_size,
                        ) by {
                            if q != r {
                                assert(cursors@[q] == before_cursors[q]);
                            }
                        }
                    }
                    match found {
                        Ok(entry) => {
                            match best {
                                None => {
                                    best = Some((r, entry));
                                },
                                Some((b, best_entry)) => {
                                    if entry.0 <= best_entry.0 {
                                        best = Some((r, entry));
                                    }
                                },
                            }
                        },
                        Err(e) => {
                            proof {
                                assert(storage.files().remove(scratch@) =~= files0.remove(scratch@));
                            }
                            return Err(e);
                        },
                    }
                }
                r += 1;
            }
            match best {
                None => {
                    break ;
                },
                Some((b, (key, value))) => {
                    let position: usize = next[b];
                    let ghost before = next@;
                    let ghost out = flushed + output_buffer@;
                    next[b] = position + 1;
                    proof {
                        assert(next@ == before.update(b as int, (position + 1) as usize));
                        lemma_left_over_step(counts, before, b as int, (position + 1) as usize);
                        lemma_left_over_nonnegative(counts, next@);
                        if sound {
                            assert(strictly_ascending(all[b as int]));
                            assert forall|q: int, j: int|
                                0 <= q < count && before[q] <= j < all[q].len() implies (
                            #[trigger] all[q][j]).0 >= key by {
                                assert(strictly_ascending(all[q]));
                                let head = all[q][before[q] as int];
                                assert(head.0 >= key);
                                if j > before[q] {
                                    assert(head.0 < all[q][j].0);
                                }
                            }
                        }
                    }
                    let seen: bool = match recent_key {
                        Some(recent) => recent == key,
                        None => false,
                    };
                    if seen {
                        proof {
                            if sound {
                                let limit = recent_key.unwrap();
                                assert forall|q: int, j: int|
                                    0 <= q < count && 0 <= j < all[q].len() implies if j < next@[q] {
                                    (#[trigger] all[q][j]).0 <= limit
                                } else {
                                    all[q][j].0 >= limit
                                } by {
                                    if q == b && j == position {
                                    } else if j < before[q] {
                                        assert(all[q][j].0 <= limit);
                                    }
                                }
                            }
                        }
                    } else {
                        proof {
                            if sound {
                                if recent_key is Some {
                                    let limit = recent_key.unwrap();
                                    assert(all[b as int][position as int].0 >= limit);
                                    assert(key > limit);
                                }
                                assert forall|q: int, j: int|
                                    0 <= q < count && 0 <= j < all[q].len() && (
                                    #[trigger] all[q][j]).0 == key implies j == before[q] && q <= b by {
                                    assert(strictly_ascending(all[q]));
                                    if j < before[q] {
                                        assert(recent_key is Some);
                                        assert(all[q][j].0 <= recent_key.unwrap());
                                    }
                                    let head = all[q][before[q] as int];
                                    if j > before[q] {
                                        assert(head.0 < all[q][j].0);
                                        assert(head.0 >= key);
                                    }
                                }
                                assert(holds_key(all[b as int], key));
                                assert forall|q: int| b < q < count implies !holds_key(
                                    #[trigger] all[q],
                                    key,
                                ) by {
                                    if holds_key(all[q], key) {
                                        let j = choose|j: int|
                                            0 <= j < all[q].len() && (#[trigger] all[q][j]).0 == key;
                                        assert(q <= b);
                                    }
                                }
                                lemma_newest_at(all, key, b as int);
                                lemma_lookup_at(all[b as int], position as int);
                                assert(newest_value(all, key) == Some(value));
                            }
                        }
                        let emit: bool = !discard_tombstones || value != TOMBSTONE_VALUE;
                        if emit {
                            output_buffer.push((key, value));
                        }
                        proof {
                            let now = flushed + output_buffer@;
                            if emit {
                                assert(now =~= out.push((key, value)));
                            } else {
                                assert(now =~= out);
                            }
                            if sound {
                                lemma_emitted(
                                    all,
                                    discard_tombstones,
                                    out,
                                    now,
                                    before,
                                    next@,
                                    recent_key,
                                    key,
                                    value,
                                    b as int,
                                    position as int,
                                );
                            }
                        }
                        recent_key = Some(key);
                        if output_buffer.len() >= per_page {
                            let bytes = serialize(output_buffer.as_slice());
                            let ghost before_files = storage.files();
                            storage.append_file(scratch.as_str(), bytes.as_slice());
                            proof {
                                crate::serde_entry::lemma_entries_bytes_concat(flushed, output_buffer@);
                                flushed = flushed + output_buffer@;
                                assert(storage.files() =~= files0.insert(scratch@, entries_bytes(flushed)));
                                assert forall|q: int| 0 <= q < count implies (
                                #[trigger] cursors@[q]).holds(
                                    storage.files(),
                                    paths@[q]@,
                                    page_size,
                                ) by {
                                    filename::lemma_compaction_path_is_no_run(name, level, q as usize);
                                    cursors@[q].lemma_holds_frame(
                                        before_files,
                                        storage.files(),
                                        paths@[q]@,
                                        page_size,
                                    );
                                }
                            }
                            output_buffer = Vec::new();
                            proof {
                                assert(flushed + output_buffer@ =~= flushed);
                            }
                        }
                    }
                },
            }
        }
        let bytes = serialize(output_buffer.as_slice());
        storage.append_file(scratch.as_str(), bytes.as_slice());
        let ghost result = flushed + output_buffer@;
        proof {
            crate::serde_entry::lemma_entries_bytes_concat(flushed, output_buffer@);
            assert(storage.files() =~= files0.insert(scratch@, entries_bytes(result)));
            assert(storage.files().remove(scratch@) =~= files0.remove(scratch@));
            crate::serde_entry::lemma_entries_bytes_len(result);
            if sound {
                assert forall|key: Key, value: Value| #[trigger]
                    result.contains((key, value)) <==> newest_value(all, key) == Some(value) && kept(
                        value,
                        discard_tombstones,
                    ) by {
                    if recent_key is Some && key <= recent_key.unwrap() {
                    } else {
                        if result.contains((key, value)) {
                            let i = choose|i: int| 0 <= i < result.len() && result[i] == (key, value);
                            assert(result[i].0 <= recent_key.unwrap());
                        }
                        assert forall|q: int| 0 <= q < all.len() implies !holds_key(
                            #[trigger] all[q],
                            key,
                        ) by {
                            if holds_key(all[q], key) {
                                let j = choose|j: int|
                                    0 <= j < all[q].len() && (#[trigger] all[q][j]).0 == key;
                                assert(j < next@[q]);
                                assert(recent_key is Some);
                                assert(all[q][j].0 <= recent_key.unwrap());
                            }
                        }
                        lemma_newest_none(all, key);
                    }
                }
                lemma_merge_is_unique(all, discard_tombstones, result);
            }
        }
        match storage.file_len(scratch.as_str()) {
            Some(length) => Ok(length / ENTRY_SIZE),
            None => Err(StoreError::MissingFile),
        }
    }

    /// Merges all runs of level `level` into its run 0 and records the
    /// number of entries of that run in `entry_counts`, which held those of
    /// the runs. Of a key that several runs hold, the run with the highest
    /// index decides the value; with `discard_tombstones`, keys whose value
    /// is the tombstone are left out. A level whose merge is empty is left
    /// without runs. A level of fewer than two runs is left as it is.
    pub fn compact(
        &self,
        storage: &mut Storage,
        db_name: &str,
        level: Level,
        entry_counts: &mut Vec<Size>,
        discard_tombstones: bool,
    ) -> (done: Result<(), StoreError>)
        requires
            old(storage).wf(),
        ensures
            final(storage).wf(),
            final(storage).spec_page_size() == old(storage).spec_page_size(),
            final(storage).spec_use_pool() == old(storage).spec_use_pool(),
            final(storage).pool_capacity() == old(storage).pool_capacity(),
            old(entry_counts)@.len() < 2 ==> done.is_ok() && final(storage).files() == old(
                storage,
            ).files() && final(entry_counts)@ == old(entry_counts)@,
            done is Err ==> final(entry_counts)@ == old(entry_counts)@ && final(storage).files()
                == old(storage).files().remove(filename::spec_sst_compaction_path(db_name@, level)),
            old(entry_counts)@.len() >= 2 && level_sound(
                old(storage).files(),
                db_name@,
                level,
                old(entry_counts)@,
            ) ==> {
                let count = old(entry_counts)@.len();
                let result = merged(
                    level_runs(old(storage).files(), db_name@, level, count),
                    discard_tombstones,
                );
                &&& done.is_ok()
                &&& result.len() <= usize::MAX
                &&& is_merge(
                    level_runs(old(storage).files(), db_name@, level, count),
                    discard_tombstones,
                    result,
                )
                &&& final(storage).files() == compacted_files(
                    old(storage).files(),
                    db_name@,
                    level,
                    count,
                    result,
                )
                &&& final(entry_counts)@ == if result.len() == 0 {
                    Seq::<Size>::empty()
                } else {
                    seq![result.len() as usize]
                }
            },
    {
        let num_runs: usize = entry_counts.len();
        if num_runs < 2 {
            return Ok(());
        }
        proof {
            storage.lemma_page_size();
        }
        let ghost files = storage.files();
        let ghost sound = level_sound(files, db_name@, level, entry_counts@);
        let ghost sources = level_runs(files, db_name@, level, num_runs as nat);
        let ghost result = merged(sources, discard_tombstones);
        let scratch = filename::sst_compaction_path(db_name, level);
        let total: usize = match self.merge_to_scratch(
            storage,
            db_name,
            level,
            entry_counts,
            discard_tombstones,
        ) {
            Ok(total) => total,
            Err(e) => {
                let removed = storage.remove_file(scratch.as_str());
                return Err(e);
            },
        };
        let ghost exact = sound ==> total == result.len() && is_merge(
            sources,
            discard_tombstones,
            result,
        ) && storage.files() == files.insert(scratch@, entries_bytes(result));
        assert(exact);
        let ghost staged = storage.files();
        let mut run: usize = 0;
        while run < num_runs
            invariant
                storage.wf(),
                storage.spec_page_size() == old(storage).spec_page_size(),
                storage.spec_use_pool() == old(storage).spec_use_pool(),
                storage.pool_capacity() == old(storage).pool_capacity(),
                0 <= run <= num_runs,
                result == merged(sources, discard_tombstones),
                exact,
                entry_counts@ == old(entry_counts)@,
                num_runs == entry_counts@.len(),
                num_runs >= 2,
                files == old(storage).files(),
                sources == level_runs(files, db_name@, level, num_runs as nat),
                sound == level_sound(files, db_name@, level, entry_counts@),
                scratch@ == filename::spec_sst_compaction_path(db_name@, level),
                storage.files() == without_runs(staged, db_name@, level, run as nat),
            decreases num_runs - run,
        {
            let path = filename::sst_path(db_name, level, run);
            let removed = storage.remove_file(path.as_str());
            run += 1;
        }
        proof {
            lemma_without_runs_keeps_scratch(staged, db_name@, level, num_runs as nat);
            lemma_without_runs_insert(files, db_name@, level, num_runs as nat, entries_bytes(result));
        }
        if total == 0 {
            entry_counts.clear();
            let removed = storage.remove_file(scratch.as_str());
            proof {
                if sound {
                    assert(storage.files() =~= compacted_files(
                        files,
                        db_name@,
                        level,
                        num_runs as nat,
                        result,
                    ));
                }
            }
            return Ok(());
        }
        let target = filename::sst_path(db_name, level, 0);
        let renamed = storage.rename_file(scratch.as_str(), target.as_str());
        entry_counts.clear();
        entry_counts.push(total);
        proof {
            if sound {
                assert(storage.files() =~= compacted_files(
                    files,
                    db_name@,
                    level,
                    num_runs as nat,
                    result,
                ));
            }
        }
        Ok(())
    }
}

/// Deleting runs after a write to the scratch file gives what the write
/// gives after the deletion.
pub proof fn lemma_without_runs_insert(
    files: Map<Seq<char>, Seq<u8>>,
    db_name: Seq<char>,
    level: Level,
    count: nat,
    bytes: Seq<u8>,
)
    ensures
        without_runs(
            files.insert(filename::spec_sst_compaction_path(db_name, level), bytes),
            db_name,
            level,
            count,
        ) == without_runs(files, db_name, level, count).insert(
            filename::spec_sst_compaction_path(db_name, level),
            bytes,
        ),
    decreases count,
{
    let scratch = filename::spec_sst_compaction_path(db_name, level);
    if count > 0 {
        lemma_without_runs_insert(files, db_name, level, (count - 1) as nat, bytes);
        filename::lemma_compaction_path_is_no_run(db_name, level, (count - 1) as usize);
        let path = filename::spec_sst_path(db_name, level, (count - 1) as usize);
        let inner = without_runs(files, db_name, level, (count - 1) as nat);
        assert(inner.insert(scratch, bytes).remove(path) =~= inner.remove(path).insert(scratch, bytes));
    }
}

} // verus!
