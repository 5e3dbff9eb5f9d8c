//! Runs with a static B-tree over their pages. The inner nodes lie in a
//! file beside the entries and lead a search to the page where a key
//! stands. What the index says is confirmed against the entries of the
//! run; where it does not hold, the run is searched like an array.


use crate::algorithm::strictly_ascending;
use crate::array_sst::{self, compacted_files, level_runs, level_sound, PageCursor};
use crate::btree_info::{node_fanout, spec_fanout};
use crate::btree_util::{
    btree_navigate, first_of, get_last_in_each_chunk, has_inner_nodes, index_image, indexed_run,
    keys_of, last_in_chunks, leads_to, lemma_chunk, nodes_image, run_delimiters, run_index,
};
use crate::file_interface::Storage;
use crate::filename;
use crate::merge_k_lists::{is_merge, merged};
use crate::serde_btree::{self, kept_keys, node_bytes};
use crate::serde_entry::{entries_bytes, entries_from_bytes};
use crate::sst_util::{
    ceil_div, in_range, is_lower_bound, is_upper_end, lemma_ceil_div,
    lemma_in_range_between_bounds, lemma_lookup_at, lookup, num_pages, run_file,
};
use crate::system_info::{entries_per_page, spec_entries_per_page, valid_page_size};
use crate::types::{Entry, Key, Level, Run, Size, StoreError, Value};
use vstd::prelude::*;

verus! {

/// The pages of the nodes of one level.
pub fn build_nodes(delimiters: &Vec<Key>, page_size: usize) -> (image: Vec<u8>)
    requires
        valid_page_size(page_size),
    ensures
        image@ == nodes_image(delimiters@, spec_fanout(page_size) as int, page_size),
{
    let fanout: usize = node_fanout(page_size);
    let mut image: Vec<u8> = Vec::new();
    let mut start: usize = 0;
    let ghost all = delimiters@;
    assert(all.skip(0) =~= all);
    while start < delimiters.len()
        invariant
            valid_page_size(page_size),
            fanout == spec_fanout(page_size),
            fanout >= 2,
            all == delimiters@,
            0 <= start <= all.len(),
            nodes_image(all, fanout as int, page_size) == image@ + nodes_image(
                all.skip(start as int),
                fanout as int,
                page_size,
            ),
        decreases all.len() - start,
    {
        let rest = vstd::slice::slice_subrange(delimiters.as_slice(), start, delimiters.len());
        assert(rest@ =~= all.skip(start as int));
        let ghost before = image@;
        serde_btree::serialize_into(&mut image, rest, page_size);
        let ghost node = image@.subrange(before.len() as int, image@.len() as int);
        let step: usize = if rest.len() < fanout {
            rest.len()
        } else {
            fanout
        };
        proof {
            assert(first_of(rest@, fanout as int).len() == step);
            assert(rest@.skip(step as int) =~= all.skip(start + step));
            assert(image@ =~= before + node);
            assert(node =~= node_bytes(
                rest@.take(kept_keys(rest@.len() as int, fanout as int)),
                page_size,
            ));
            assert(before + (node + nodes_image(rest@.skip(step as int), fanout as int, page_size))
                =~= (before + node) + nodes_image(
                all.skip(start + step),
                fanout as int,
                page_size,
            ));
        }
        start = start + step;
    }
    proof {
        assert(image@ + Seq::<u8>::empty() =~= image@);
    }
    image
}

/// The index file over children with the delimiters `delimiters`.
pub fn build_index(delimiters: Vec<Key>, page_size: usize) -> (image: Vec<u8>)
    requires
        valid_page_size(page_size),
    ensures
        image@ == index_image(delimiters@, spec_fanout(page_size) as int, page_size),
{
    let fanout: usize = node_fanout(page_size);
    let ghost all = delimiters@;
    let mut level_keys: Vec<Key> = delimiters;
    let mut image: Vec<u8> = Vec::new();
    proof {
        assert(index_image(all, fanout as int, page_size) + Seq::<u8>::empty() =~= index_image(
            all,
            fanout as int,
            page_size,
        ));
    }
    while level_keys.len() > 1
        invariant
            valid_page_size(page_size),
            fanout == spec_fanout(page_size),
            fanout >= 2,
            index_image(all, fanout as int, page_size) == index_image(
                level_keys@,
                fanout as int,
                page_size,
            ) + image@,
        decreases level_keys@.len(),
    {
        let mut nodes = build_nodes(&level_keys, page_size);
        let above = get_last_in_each_chunk(level_keys.as_slice(), fanout);
        proof {
            lemma_ceil_div(level_keys@.len() as int, fanout as int);
            assert((index_image(above@, fanout as int, page_size) + nodes@) + image@ =~= index_image(
                above@,
                fanout as int,
                page_size,
            ) + (nodes@ + image@));
        }
        nodes.append(&mut image);
        image = nodes;
        level_keys = above;
    }
    proof {
        assert(Seq::<u8>::empty() + image@ =~= image@);
    }
    image
}

/// The files that are left when the index files of runs `0` to
/// `count - 1` of a level are deleted.
pub open spec fn without_indexes(
    files: Map<Seq<char>, Seq<u8>>,
    db_name: Seq<char>,
    level: Level,
    count: nat,
) -> Map<Seq<char>, Seq<u8>>
    decreases count,
{
    if count == 0 {
        files
    } else {
        without_indexes(files, db_name, level, (count - 1) as nat).remove(
            filename::spec_sst_btree_path(db_name, level, (count - 1) as usize),
        )
    }
}

/// Deleting index files does not touch the entries of a run.
pub proof fn lemma_without_indexes_keeps_runs(
    files: Map<Seq<char>, Seq<u8>>,
    db_name: Seq<char>,
    level: Level,
    count: nat,
    run: Run,
)
    ensures
        ({
            let path = filename::spec_sst_path(db_name, level, run);
            let after = without_indexes(files, db_name, level, count);
            &&& after.contains_key(path) == files.contains_key(path)
            &&& files.contains_key(path) ==> after[path] == files[path]
        }),
    decreases count,
{
    if count > 0 {
        lemma_without_indexes_keeps_runs(files, db_name, level, (count - 1) as nat, run);
        filename::lemma_btree_path_is_no_run(db_name, level, (count - 1) as usize, run);
    }
}

/// The files after the first `count` runs of a level, and their indexes,
/// were replaced by the single run `merged` and its index.
pub open spec fn compacted_with_index(
    files: Map<Seq<char>, Seq<u8>>,
    db_name: Seq<char>,
    level: Level,
    count: nat,
    merged: Seq<Entry>,
    page_size: usize,
) -> Map<Seq<char>, Seq<u8>> {
    let cleared = without_indexes(
        compacted_files(files, db_name, level, count, merged),
        db_name,
        level,
        count,
    );
    if merged.len() <= spec_entries_per_page(page_size) {
        cleared
    } else {
        cleared.insert(filename::spec_sst_btree_path(db_name, level, 0), run_index(merged, page_size))
    }
}

/// Whether an entry stands before the place of `key`: below the key, or,
/// where the place is behind the entries that are not above the key
/// (`through`), not above it.
pub open spec fn below(entry: Entry, key: Key, through: bool) -> bool {
    if through {
        entry.0 <= key
    } else {
        entry.0 < key
    }
}

/// The page that the delimiters of a run lead to for a key holds the place
/// of the key: a position that parts the entries of that page parts the
/// entries of the whole run.
pub proof fn lemma_bound_in_leaf(
    entries: Seq<Entry>,
    per_page: int,
    key: Key,
    page: int,
    index: int,
    through: bool,
)
    requires
        per_page >= 1,
        strictly_ascending(entries),
        leads_to(last_in_chunks(keys_of(entries), per_page), key, page),
        page * per_page <= index,
        index <= (page + 1) * per_page,
        index <= entries.len(),
        forall|i: int| page * per_page <= i < index ==> below(#[trigger] entries[i], key, through),
        forall|i: int|
            index <= i < (page + 1) * per_page && i < entries.len() ==> !below(
                #[trigger] entries[i],
                key,
                through,
            ),
    ensures
        if through {
            is_upper_end(entries, key, index)
        } else {
            is_lower_bound(entries, key, index)
        },
{
    let keys = keys_of(entries);
    let delimiters = last_in_chunks(keys, per_page);
    let len = entries.len() as int;
    let first = page * per_page;
    let end = (page + 1) * per_page;
    lemma_chunk(len, per_page, page);
    assert forall|i: int| 0 <= i < index implies below(#[trigger] entries[i], key, through) by {
        if i < first {
            assert(page >= 1) by (nonlinear_arith)
                requires
                    page >= 0,
                    page * per_page > 0,
            ;
            lemma_chunk(len, per_page, page - 1);
            assert((page - 1 + 1) * per_page == first);
            let before = first - 1;
            assert(delimiters[page - 1] == keys[before]);
            assert(keys[before] == entries[before].0);
            assert(delimiters[page - 1] < key);
            if i < before {
                assert(entries[i].0 < entries[before].0);
            }
        }
    }
    assert forall|i: int| index <= i < len implies !below(#[trigger] entries[i], key, through) by {
        if i >= end {
            assert(page < delimiters.len() - 1) by {
                if page + 1 == ceil_div(len, per_page) {
                    assert(end >= len);
                }
            }
            let last = end - 1;
            assert(delimiters[page] == keys[last]);
            assert(keys[last] == entries[last].0);
            assert(delimiters[page] >= key);
            assert(entries[last].0 < entries[i].0);
        }
    }
}

/// Runs with a static B-tree over their pages.
pub struct Sst;

impl Sst {
    /// Whether `index` is the position of the first entry that is not below
    /// `key` (`through` is false), or the position behind the last entry
    /// that is not above `key` (`through` is true): told from the entry
    /// before `index` and the entry at `index`, which decide it for a run
    /// in ascending order.
    fn confirm_bound(
        cursor: &mut PageCursor,
        storage: &mut Storage,
        path: &str,
        index: usize,
        num_entries: Size,
        key: Key,
        through: bool,
    ) -> (confirmed: bool)
        requires
            old(storage).wf(),
            old(cursor).holds(old(storage).files(), path@, old(storage).spec_page_size()),
        ensures
            final(storage).wf(),
            final(storage).files() == old(storage).files(),
            final(storage).spec_page_size() == old(storage).spec_page_size(),
            final(storage).spec_use_pool() == old(storage).spec_use_pool(),
            final(storage).pool_capacity() == old(storage).pool_capacity(),
            final(cursor).holds(old(storage).files(), path@, old(storage).spec_page_size()),
            confirmed ==> index <= num_entries,
            ({
                let files = old(storage).files();
                let whole = entries_from_bytes(files[path@]);
                files.contains_key(path@) && run_file(files[path@], num_entries as int) ==> confirmed
                    == (index <= num_entries && if through {
                    is_upper_end(whole, key, index as int)
                } else {
                    is_lower_bound(whole, key, index as int)
                })
            }),
    {
        let ghost files = storage.files();
        let ghost whole = entries_from_bytes(files[path@]);
        let ghost sound = files.contains_key(path@) && run_file(files[path@], num_entries as int);
        if index > num_entries {
            return false;
        }
        proof {
            if sound {
                assert(whole.len() == num_entries);
                assert(files[path@].len() == 16 * num_entries);
            }
        }
        if index > 0 {
            match cursor.entry_at(storage, path, index - 1) {
                Ok(entry) => {
                    let before_ok: bool = if through {
                        entry.0 <= key
                    } else {
                        entry.0 < key
                    };
                    if !before_ok {
                        proof {
                            if sound {
                                assert(entry == whole[index - 1]);
                            }
                        }
                        return false;
                    }
                },
                Err(_) => {
                    return false;
                },
            }
        }
        if index < num_entries {
            match cursor.entry_at(storage, path, index) {
                Ok(entry) => {
                    let after_ok: bool = if through {
                        entry.0 > key
                    } else {
                        entry.0 >= key
                    };
                    if !after_ok {
                        proof {
                            if sound {
                                assert(entry == whole[index as int]);
                            }
                        }
                        return false;
                    }
                },
                Err(_) => {
                    return false;
                },
            }
        }
        proof {
            if files.contains_key(path@) && run_file(files[path@], num_entries as int) {
                assert(whole.len() == num_entries);
                if through {
                    assert forall|i: int| 0 <= i < index implies (#[trigger] whole[i]).0 <= key by {
                        if i < index - 1 {
                            assert(whole[i].0 < whole[index - 1].0);
                        }
                    }
                    assert forall|i: int| index <= i < whole.len() implies (#[trigger] whole[i]).0
                        > key by {
                        if i > index {
                            assert(whole[index as int].0 < whole[i].0);
                        }
                    }
                } else {
                    assert forall|i: int| 0 <= i < index implies (#[trigger] whole[i]).0 < key by {
                        if i < index - 1 {
                            assert(whole[i].0 < whole[index - 1].0);
                        }
                    }
                    assert forall|i: int| index <= i < whole.len() implies (#[trigger] whole[i]).0
                        >= key by {
                        if i > index {
                            assert(whole[index as int].0 < whole[i].0);
                        }
                    }
                }
            }
        }
        true
    }

    /// The position that the index proposes for `key`, if it can be read
    /// and the entries of the run confirm it: the walk through the index
    /// names a page, a binary search over the entries of that page names
    /// the position, and the entries on both sides of it are compared with
    /// the key. Over the index of the run itself the position is always
    /// confirmed.
    fn hinted_bound(
        storage: &mut Storage,
        db_name: &str,
        level: Level,
        run: Run,
        key: Key,
        num_entries: Size,
        through: bool,
    ) -> (hint: Option<usize>)
        requires
            old(storage).wf(),
        ensures
            final(storage).wf(),
            final(storage).files() == old(storage).files(),
            final(storage).spec_page_size() == old(storage).spec_page_size(),
            final(storage).spec_use_pool() == old(storage).spec_use_pool(),
            final(storage).pool_capacity() == old(storage).pool_capacity(),
            hint is Some ==> hint.unwrap() <= num_entries,
            ({
                let path = filename::spec_sst_path(db_name@, level, run);
                let files = old(storage).files();
                let whole = entries_from_bytes(files[path]);
                hint is Some && files.contains_key(path) && run_file(files[path], num_entries as int)
                    ==> if through {
                    is_upper_end(whole, key, hint.unwrap() as int)
                } else {
                    is_lower_bound(whole, key, hint.unwrap() as int)
                }
            }),
            indexed_run(
                old(storage).files(),
                db_name@,
                level,
                run,
                num_entries,
                old(storage).spec_page_size(),
            ) ==> hint is Some,
    {
        proof {
            storage.lemma_page_size();
        }
        let page_size: usize = storage.page_size();
        let per_page: usize = entries_per_page(page_size);
        let ghost files = storage.files();
        let ghost sound = indexed_run(files, db_name@, level, run, num_entries, page_size);
        let ghost whole = entries_from_bytes(files[filename::spec_sst_path(db_name@, level, run)]);
        let page_index: usize = match btree_navigate(storage, db_name, level, run, key, num_entries) {
            Ok(page) => page,
            Err(_) => {
                return None;
            },
        };
        proof {
            lemma_chunk(num_entries as int, per_page as int, page_index as int);
            if sound {
                assert(whole.len() == num_entries);
            }
        }
        let first: usize = match page_index.checked_mul(per_page) {
            Some(index) => index,
            None => {
                return None;
            },
        };
        if first > num_entries {
            return None;
        }
        let path = filename::sst_path(db_name, level, run);
        let mut cursor = PageCursor::new();
        // The entries of the page, searched where they lie.
        let mut left: usize = first;
        let end: usize = if num_entries - first > per_page {
            first + per_page
        } else {
            num_entries
        };
        let mut right: usize = end;
        while left < right
            invariant
                storage.wf(),
                storage.files() == old(storage).files(),
                storage.spec_page_size() == old(storage).spec_page_size(),
                storage.spec_use_pool() == old(storage).spec_use_pool(),
                storage.pool_capacity() == old(storage).pool_capacity(),
                path@ == filename::spec_sst_path(db_name@, level, run),
                cursor.holds(storage.files(), path@, storage.spec_page_size()),
                first <= left <= right <= end <= num_entries,
                files == old(storage).files(),
                whole == entries_from_bytes(files[path@]),
                sound == indexed_run(files, db_name@, level, run, num_entries, page_size),
                sound ==> whole.len() == num_entries,
                sound ==> forall|i: int| first <= i < left ==> below(#[trigger] whole[i], key, through),
                sound ==> forall|i: int| right <= i < end ==> !below(#[trigger] whole[i], key, through),
            decreases right - left,
        {
            let middle: usize = left + (right - left) / 2;
            let middle_key: Key = match cursor.entry_at(storage, path.as_str(), middle) {
                Ok(entry) => entry.0,
                Err(_) => {
                    return None;
                },
            };
            let is_below: bool = if through {
                middle_key <= key
            } else {
                middle_key < key
            };
            proof {
                if sound {
                    assert(middle_key == whole[middle as int].0);
                    if is_below {
                        assert forall|i: int| first <= i < middle + 1 implies below(
                            #[trigger] whole[i],
                            key,
                            through,
                        ) by {
                            if i < middle {
                                assert(whole[i].0 < whole[middle as int].0);
                            }
                        }
                    } else {
                        assert forall|i: int| middle <= i < end implies !below(
                            #[trigger] whole[i],
                            key,
                            through,
                        ) by {
                            if i > middle {
                                assert(whole[middle as int].0 < whole[i].0);
                            }
                        }
                    }
                }
            }
            if is_below {
                left = middle + 1;
            } else {
                right = middle;
            }
        }
        let candidate: usize = left;
        proof {
            if sound {
                assert((page_index + 1) * per_page == first + per_page) by (nonlinear_arith)
                    requires
                        first == page_index * per_page,
                ;
                lemma_bound_in_leaf(
                    whole,
                    per_page as int,
                    key,
                    page_index as int,
                    candidate as int,
                    through,
                );
            }
        }
        if Self::confirm_bound(
            &mut cursor,
            storage,
            path.as_str(),
            candidate,
            num_entries,
            key,
            through,
        ) {
            Some(candidate)
        } else {
            None
        }
    }

    /// Position of the first entry of a run that is not below `key`: the
    /// position that the index leads to where the entries confirm it, else
    /// the one that a binary search over the run finds.
    pub fn lower_bound(
        &self,
        storage: &mut Storage,
        db_name: &str,
        level: Level,
        run: Run,
        key: Key,
        num_entries: Size,
    ) -> (found: Result<usize, StoreError>)
        requires
            old(storage).wf(),
        ensures
            final(storage).wf(),
            final(storage).files() == old(storage).files(),
            final(storage).spec_page_size() == old(storage).spec_page_size(),
            final(storage).spec_use_pool() == old(storage).spec_use_pool(),
            final(storage).pool_capacity() == old(storage).pool_capacity(),
            ({
                let path = filename::spec_sst_path(db_name@, level, run);
                let files = old(storage).files();
                &&& found is Ok ==> found.unwrap() <= num_entries
                &&& num_entries == 0 ==> found == Ok::<usize, StoreError>(0)
                &&& num_entries > 0 && !files.contains_key(path) ==> found == Err::<
                    usize,
                    StoreError,
                >(StoreError::MissingFile)
                &&& files.contains_key(path) && run_file(files[path], num_entries as int)
                    ==> found is Ok && is_lower_bound(
                    entries_from_bytes(files[path]),
                    key,
                    found.unwrap() as int,
                )
            }),
    {
        let page_size: usize = storage.page_size();
        if has_inner_nodes(num_entries, page_size) && storage.path_exists(
            filename::sst_path(db_name, level, run).as_str(),
        ) {
            match Self::hinted_bound(storage, db_name, level, run, key, num_entries, false) {
                Some(index) => {
                    return Ok(index);
                },
                None => {},
            }
        }
        array_sst::Sst.lower_bound(storage, db_name, level, run, key, num_entries)
    }

    /// Position just behind the last entry of a run that is not above
    /// `key`: the position that the index leads to where the entries
    /// confirm it, else the one that a binary search over the run finds.
    pub fn upper_end(
        &self,
        storage: &mut Storage,
        db_name: &str,
        level: Level,
        run: Run,
        key: Key,
        num_entries: Size,
    ) -> (found: Result<usize, StoreError>)
        requires
            old(storage).wf(),
        ensures
            final(storage).wf(),
            final(storage).files() == old(storage).files(),
            final(storage).spec_page_size() == old(storage).spec_page_size(),
            final(storage).spec_use_pool() == old(storage).spec_use_pool(),
            final(storage).pool_capacity() == old(storage).pool_capacity(),
            ({
                let path = filename::spec_sst_path(db_name@, level, run);
                let files = old(storage).files();
                &&& found is Ok ==> found.unwrap() <= num_entries
                &&& num_entries == 0 ==> found == Ok::<usize, StoreError>(0)
                &&& num_entries > 0 && !files.contains_key(path) ==> found == Err::<
                    usize,
                    StoreError,
                >(StoreError::MissingFile)
                &&& files.contains_key(path) && run_file(files[path], num_entries as int)
                    ==> found is Ok && is_upper_end(
                    entries_from_bytes(files[path]),
                    key,
                    found.unwrap() as int,
                )
            }),
    {
        let page_size: usize = storage.page_size();
        if has_inner_nodes(num_entries, page_size) && storage.path_exists(
            filename::sst_path(db_name, level, run).as_str(),
        ) {
            match Self::hinted_bound(storage, db_name, level, run, key, num_entries, true) {
                Some(index) => {
                    return Ok(index);
                },
                None => {},
            }
        }
        array_sst::Sst.upper_end(storage, db_name, level, run, key, num_entries)
    }

    /// Writes `entries` as run `run` of level `level` and, where they take
    /// more than one page, the index over them.
    pub fn write(&self, storage: &mut Storage, db_name: &str, level: Level, run: Run, entries: &[Entry]) -> (done:
        Result<(), StoreError>)
        requires
            old(storage).wf(),
        ensures
            done.is_ok(),
            final(storage).wf(),
            final(storage).spec_page_size() == old(storage).spec_page_size(),
            final(storage).spec_use_pool() == old(storage).spec_use_pool(),
            final(storage).pool_capacity() == old(storage).pool_capacity(),
            ({
                let written = old(storage).files().insert(
                    filename::spec_sst_path(db_name@, level, run),
                    entries_bytes(entries@),
                );
                final(storage).files() == if entries@.len() <= spec_entries_per_page(
                    old(storage).spec_page_size(),
                ) {
                    written
                } else {
                    written.insert(
                        filename::spec_sst_btree_path(db_name@, level, run),
                        run_index(entries@, old(storage).spec_page_size()),
                    )
                }
            }),
    {
        proof {
            storage.lemma_page_size();
        }
        let written = array_sst::Sst.write(storage, db_name, level, run, entries);
        let page_size: usize = storage.page_size();
        let num_entries: usize = entries.len();
        if !has_inner_nodes(num_entries, page_size) {
            return Ok(());
        }
        let mut entry_keys: Vec<Key> = Vec::new();
        let mut i: usize = 0;
        while i < entries.len()
            invariant
                0 <= i <= entries@.len(),
                entry_keys@ == keys_of(entries@).take(i as int),
            decreases entries@.len() - i,
        {
            entry_keys.push(entries[i].0);
            assert(entry_keys@ =~= keys_of(entries@).take(i + 1));
            i += 1;
        }
        assert(entry_keys@ =~= keys_of(entries@));
        let delimeters = get_last_in_each_chunk(entry_keys.as_slice(), entries_per_page(page_size));
        let image = build_index(delimeters, page_size);
        let path = filename::sst_btree_path(db_name, level, run);
        storage.write_file(path.as_str(), image);
        Ok(())
    }

    /// All entries of run `run` of level `level`.
    pub fn read(&self, storage: &Storage, db_name: &str, level: Level, run: Run) -> (entries: Result<
        Vec<Entry>,
        StoreError,
    >)
        requires
            storage.wf(),
        ensures
            ({
                let path = filename::spec_sst_path(db_name@, level, run);
                let files = storage.files();
                match entries {
                    Ok(list) => files.contains_key(path) && files[path].len() % 16 == 0 && list@
                        == entries_from_bytes(files[path]),
                    Err(e) => if files.contains_key(path) {
                        files[path].len() % 16 != 0 && e == StoreError::Corrupt
                    } else {
                        e == StoreError::MissingFile
                    },
                }
            }),
    {
        array_sst::Sst.read(storage, db_name, level, run)
    }

    /// Number of whole entries in the file of run `run` of level `level`.
    pub fn len(&self, storage: &Storage, db_name: &str, level: Level, run: Run) -> (len: Result<
        Size,
        StoreError,
    >)
        requires
            storage.wf(),
        ensures
            ({
                let path = filename::spec_sst_path(db_name@, level, run);
                let files = storage.files();
                match len {
                    Ok(n) => files.contains_key(path) && n == files[path].len() / 16,
                    Err(e) => !files.contains_key(path) && e == StoreError::MissingFile,
                }
            }),
    {
        array_sst::Sst.len(storage, db_name, level, run)
    }

    /// The value that run `run` of level `level` holds for `key`: the index
    /// leads to the page of the key, and the entries of the run decide.
    pub fn get(
        &self,
        storage: &mut Storage,
        db_name: &str,
        level: Level,
        run: Run,
        key: Key,
        num_entries: Size,
    ) -> (found: Result<Option<Value>, StoreError>)
        requires
            old(storage).wf(),
        ensures
            final(storage).wf(),
            final(storage).files() == old(storage).files(),
            final(storage).spec_page_size() == old(storage).spec_page_size(),
            final(storage).spec_use_pool() == old(storage).spec_use_pool(),
            final(storage).pool_capacity() == old(storage).pool_capacity(),
            ({
                let path = filename::spec_sst_path(db_name@, level, run);
                let files = old(storage).files();
                &&& num_entries == 0 ==> found == Ok::<Option<Value>, StoreError>(None)
                &&& num_entries > 0 && !files.contains_key(path) ==> found == Err::<
                    Option<Value>,
                    StoreError,
                >(StoreError::MissingFile)
                &&& files.contains_key(path) && run_file(files[path], num_entries as int) ==> found
                    == Ok::<Option<Value>, StoreError>(lookup(entries_from_bytes(files[path]), key))
            }),
    {
        let page_size: usize = storage.page_size();
        if !has_inner_nodes(num_entries, page_size) {
            return array_sst::Sst.get(storage, db_name, level, run, key, num_entries);
        }
        let ghost files = storage.files();
        let ghost spec_path = filename::spec_sst_path(db_name@, level, run);
        let ghost whole = entries_from_bytes(files[spec_path]);
        let ghost sound = files.contains_key(spec_path) && run_file(
            files[spec_path],
            num_entries as int,
        );
        let index: usize = match self.lower_bound(storage, db_name, level, run, key, num_entries) {
            Ok(index) => index,
            Err(e) => {
                return Err(e);
            },
        };
        if index >= num_entries {
            proof {
                if sound {
                    if crate::sst_util::holds_key(whole, key) {
                        let i = choose|i: int| 0 <= i < whole.len() && (#[trigger] whole[i]).0 == key;
                        assert(false);
                    }
                }
            }
            return Ok(None);
        }
        let path = filename::sst_path(db_name, level, run);
        let mut cursor = PageCursor::new();
        match cursor.entry_at(storage, path.as_str(), index) {
            Ok(entry) => {
                if entry.0 == key {
                    proof {
                        if sound {
                            lemma_lookup_at(whole, index as int);
                        }
                    }
                    Ok(Some(entry.1))
                } else {
                    proof {
                        if sound {
                            if crate::sst_util::holds_key(whole, key) {
                                let i = choose|i: int|
                                    0 <= i < whole.len() && (#[trigger] whole[i]).0 == key;
                                if i > index {
                                    assert(whole[index as int].0 < whole[i].0);
                                }
                                assert(false);
                            }
                        }
                    }
                    Ok(None)
                }
            },
            Err(e) => Err(e),
        }
    }

    /// Like `get` of an array run: the index is left aside.
    pub fn binary_search_get(
        &self,
        storage: &mut Storage,
        db_name: &str,
        level: Level,
        run: Run,
        key: Key,
        num_entries: Size,
    ) -> (found: Result<Option<Value>, StoreError>)
        requires
            old(storage).wf(),
        ensures
            final(storage).wf(),
            final(storage).files() == old(storage).files(),
            final(storage).spec_page_size() == old(storage).spec_page_size(),
            final(storage).spec_use_pool() == old(storage).spec_use_pool(),
            final(storage).pool_capacity() == old(storage).pool_capacity(),
            ({
                let path = filename::spec_sst_path(db_name@, level, run);
                let files = old(storage).files();
                &&& num_entries == 0 ==> found == Ok::<Option<Value>, StoreError>(None)
                &&& num_entries > 0 && !files.contains_key(path) ==> found == Err::<
                    Option<Value>,
                    StoreError,
                >(StoreError::MissingFile)
                &&& files.contains_key(path) && run_file(files[path], num_entries as int) ==> found
                    == Ok::<Option<Value>, StoreError>(lookup(entries_from_bytes(files[path]), key))
            }),
    {
        array_sst::Sst.binary_search_get(storage, db_name, level, run, key, num_entries)
    }

    /// The entries of run `run` of level `level` whose keys lie in
    /// `key_range`, both ends included, in ascending order. The index leads
    /// to the pages of the two ends; the pages from one to the other give
    /// the entries.
    pub fn scan(
        &self,
        storage: &mut Storage,
        db_name: &str,
        level: Level,
        run: Run,
        key_range: (Key, Key),
        num_entries: Size,
    ) -> (found: Result<Vec<Entry>, StoreError>)
        requires
            old(storage).wf(),
        ensures
            final(storage).wf(),
            final(storage).files() == old(storage).files(),
            final(storage).spec_page_size() == old(storage).spec_page_size(),
            final(storage).spec_use_pool() == old(storage).spec_use_pool(),
            final(storage).pool_capacity() == old(storage).pool_capacity(),
            ({
                let path = filename::spec_sst_path(db_name@, level, run);
                let files = old(storage).files();
                &&& num_entries == 0 ==> found.is_ok() && found.unwrap()@ == Seq::<Entry>::empty()
                &&& num_entries > 0 && !files.contains_key(path) ==> found == Err::<
                    Vec<Entry>,
                    StoreError,
                >(StoreError::MissingFile)
                &&& files.contains_key(path) && run_file(files[path], num_entries as int)
                    ==> found.is_ok() && found.unwrap()@ == in_range(
                    entries_from_bytes(files[path]),
                    key_range.0,
                    key_range.1,
                )
            }),
    {
        let page_size: usize = storage.page_size();
        proof {
            storage.lemma_page_size();
        }
        if num_entries <= node_fanout(page_size) {
            return array_sst::Sst.scan(storage, db_name, level, run, key_range, num_entries);
        }
        let (key1, key2) = key_range;
        let ghost files = storage.files();
        let ghost path = filename::spec_sst_path(db_name@, level, run);
        let ghost whole = entries_from_bytes(files[path]);
        let ghost sound = files.contains_key(path) && run_file(files[path], num_entries as int);
        let lowerbound_index: usize = match self.lower_bound(
            storage,
            db_name,
            level,
            run,
            key1,
            num_entries,
        ) {
            Ok(index) => index,
            Err(e) => {
                return Err(e);
            },
        };
        let end_index: usize = match self.upper_end(storage, db_name, level, run, key2, num_entries) {
            Ok(index) => index,
            Err(e) => {
                return Err(e);
            },
        };
        proof {
            if sound {
                lemma_in_range_between_bounds(
                    whole,
                    key1,
                    key2,
                    lowerbound_index as int,
                    end_index as int,
                );
            }
        }
        if lowerbound_index >= end_index {
            return Ok(Vec::new());
        }
        array_sst::Sst.collect_range(
            storage,
            db_name,
            level,
            run,
            lowerbound_index,
            end_index,
            num_entries,
        )
    }

    /// Like `scan` of an array run: the index is left aside.
    pub fn binary_search_scan(
        &self,
        storage: &mut Storage,
        db_name: &str,
        level: Level,
        run: Run,
        key_range: (Key, Key),
        num_entries: Size,
    ) -> (found: Result<Vec<Entry>, StoreError>)
        requires
            old(storage).wf(),
        ensures
            final(storage).wf(),
            final(storage).files() == old(storage).files(),
            final(storage).spec_page_size() == old(storage).spec_page_size(),
            final(storage).spec_use_pool() == old(storage).spec_use_pool(),
            final(storage).pool_capacity() == old(storage).pool_capacity(),
            ({
                let path = filename::spec_sst_path(db_name@, level, run);
                let files = old(storage).files();
                &&& num_entries == 0 ==> found.is_ok() && found.unwrap()@ == Seq::<Entry>::empty()
                &&& num_entries > 0 && !files.contains_key(path) ==> found == Err::<
                    Vec<Entry>,
                    StoreError,
                >(StoreError::MissingFile)
                &&& files.contains_key(path) && run_file(files[path], num_entries as int)
                    ==> found.is_ok() && found.unwrap()@ == in_range(
                    entries_from_bytes(files[path]),
                    key_range.0,
                    key_range.1,
                )
            }),
    {
        array_sst::Sst.binary_search_scan(storage, db_name, level, run, key_range, num_entries)
    }

    /// The last key of every page of a run of `num_entries` entries: the
    /// delimiters of its pages. Of every page only its last entry is looked
    /// at.
    pub fn page_delimiters(
        storage: &mut Storage,
        db_name: &str,
        level: Level,
        run: Run,
        num_entries: Size,
    ) -> (delimiters: Result<Vec<Key>, StoreError>)
        requires
            old(storage).wf(),
        ensures
            final(storage).wf(),
            final(storage).files() == old(storage).files(),
            final(storage).spec_page_size() == old(storage).spec_page_size(),
            final(storage).spec_use_pool() == old(storage).spec_use_pool(),
            final(storage).pool_capacity() == old(storage).pool_capacity(),
            ({
                let path = filename::spec_sst_path(db_name@, level, run);
                let files = old(storage).files();
                files.contains_key(path) && run_file(files[path], num_entries as int)
                    ==> delimiters is Ok && delimiters.unwrap()@ == run_delimiters(
                    files,
                    db_name@,
                    level,
                    run,
                    old(storage).spec_page_size(),
                )
            }),
    {
        proof {
            storage.lemma_page_size();
        }
        let page_size: usize = storage.page_size();
        let per_page: usize = entries_per_page(page_size);
        let pages: usize = num_pages(num_entries, page_size);
        let path = filename::sst_path(db_name, level, run);
        let ghost files = storage.files();
        let ghost sound = files.contains_key(path@) && run_file(files[path@], num_entries as int);
        let ghost entries = entries_from_bytes(files[path@]);
        let ghost expected = last_in_chunks(keys_of(entries), per_page as int);
        let mut cursor = PageCursor::new();
        let mut delimiters: Vec<Key> = Vec::new();
        let mut page: usize = 0;
        while page < pages
            invariant
                storage.wf(),
                storage.files() == files,
                files == old(storage).files(),
                storage.spec_page_size() == old(storage).spec_page_size(),
                storage.spec_page_size() == page_size,
                storage.spec_use_pool() == old(storage).spec_use_pool(),
                storage.pool_capacity() == old(storage).pool_capacity(),
                valid_page_size(page_size),
                per_page == spec_entries_per_page(page_size),
                per_page >= 1,
                pages == ceil_div(num_entries as int, per_page as int),
                path@ == filename::spec_sst_path(db_name@, level, run),
                cursor.holds(files, path@, page_size),
                sound == (files.contains_key(path@) && run_file(files[path@], num_entries as int)),
                entries == entries_from_bytes(files[path@]),
                expected == last_in_chunks(keys_of(entries), per_page as int),
                0 <= page <= pages,
                sound ==> delimiters@ == expected.take(page as int),
            decreases pages - page,
        {
            proof {
                crate::btree_util::lemma_chunk(num_entries as int, per_page as int, page as int);
                assert((page + 1) * per_page == page * per_page + per_page) by (nonlinear_arith);
            }
            let end: usize = if num_entries - page * per_page > per_page {
                (page + 1) * per_page
            } else {
                num_entries
            };
            let entry = match cursor.entry_at(storage, path.as_str(), end - 1) {
                Ok(entry) => entry,
                Err(e) => {
                    return Err(e);
                },
            };
            delimiters.push(entry.0);
            proof {
                if sound {
                    assert(entries.len() == num_entries);
                    assert(expected[page as int] == keys_of(entries)[end - 1]);
                    assert(delimiters@ =~= expected.take(page + 1));
                }
            }
            page += 1;
        }
        proof {
            if sound {
                assert(entries.len() == num_entries);
                assert(expected.take(page as int) =~= expected);
            }
        }
        Ok(delimiters)
    }

    /// Merges all runs of level `level` into its run 0, as an array run is
    /// compacted, deletes the indexes of the runs and builds the index of
    /// the merged run where that takes more than one page.
    pub fn compact(
        &self,
        storage: &mut Storage,
        db_name: &str,
        level: Level,
        entry_counts: &mut Vec<Size>,
        discard_tombstones: bool,
    ) -> (done: Result<(), StoreError>)
        requires
            old(storage).wf(),
        ensures
            final(storage).wf(),
            final(storage).spec_page_size() == old(storage).spec_page_size(),
            final(storage).spec_use_pool() == old(storage).spec_use_pool(),
            final(storage).pool_capacity() == old(storage).pool_capacity(),
            old(entry_counts)@.len() < 2 ==> done.is_ok() && final(storage).files() == old(
                storage,
            ).files() && final(entry_counts)@ == old(entry_counts)@,
            old(entry_counts)@.len() >= 2 && level_sound(
                old(storage).files(),
                db_name@,
                level,
                old(entry_counts)@,
            ) ==> {
                let count = old(entry_counts)@.len();
                let result = merged(
                    level_runs(old(storage).files(), db_name@, level, count),
                    discard_tombstones,
                );
                &&& done.is_ok()
                &&& result.len() <= usize::MAX
                &&& is_merge(
                    level_runs(old(storage).files(), db_name@, level, count),
                    discard_tombstones,
                    result,
                )
                &&& final(storage).files() == compacted_with_index(
                    old(storage).files(),
                    db_name@,
                    level,
                    count,
                    result,
                    old(storage).spec_page_size(),
                )
                &&& final(entry_counts)@ == if result.len() == 0 {
                    Seq::<Size>::empty()
                } else {
                    seq![result.len() as usize]
                }
            },
    {
        let num_runs: usize = entry_counts.len();
        if num_runs < 2 {
            return Ok(());
        }
        proof {
            storage.lemma_page_size();
        }
        let ghost files = storage.files();
        let ghost sound = level_sound(files, db_name@, level, entry_counts@);
        let ghost result = merged(level_runs(files, db_name@, level, num_runs as nat), discard_tombstones);
        match array_sst::Sst.compact(storage, db_name, level, entry_counts, discard_tombstones) {
            Ok(()) => {},
            Err(e) => {
                return Err(e);
            },
        }
        let ghost base = storage.files();
        let ghost counts = entry_counts@;
        let ghost exact = sound ==> base == compacted_files(
            files,
            db_name@,
            level,
            num_runs as nat,
            result,
        ) && is_merge(
            level_runs(files, db_name@, level, num_runs as nat),
            discard_tombstones,
            result,
        ) && counts == (if result.len() == 0 {
            Seq::<Size>::empty()
        } else {
            seq![result.len() as usize]
        }) && result.len() <= usize::MAX;
        assert(exact);
        let mut run: usize = 0;
        while run < num_runs
            invariant
                storage.wf(),
                storage.spec_page_size() == old(storage).spec_page_size(),
                storage.spec_use_pool() == old(storage).spec_use_pool(),
                storage.pool_capacity() == old(storage).pool_capacity(),
                entry_counts@ == counts,
                exact,
                files == old(storage).files(),
                num_runs == old(entry_counts)@.len(),
                num_runs >= 2,
                sound == level_sound(files, db_name@, level, old(entry_counts)@),
                result == merged(
                    level_runs(files, db_name@, level, num_runs as nat),
                    discard_tombstones,
                ),
                exact == (sound ==> base == compacted_files(
                    files,
                    db_name@,
                    level,
                    num_runs as nat,
                    result,
                ) && is_merge(
                    level_runs(files, db_name@, level, num_runs as nat),
                    discard_tombstones,
                    result,
                ) && counts == (if result.len() == 0 {
                    Seq::<Size>::empty()
                } else {
                    seq![result.len() as usize]
                }) && result.len() <= usize::MAX),
                0 <= run <= num_runs,
                storage.files() == without_indexes(base, db_name@, level, run as nat),
            decreases num_runs - run,
        {
            let path = filename::sst_btree_path(db_name, level, run);
            let removed = storage.remove_file(path.as_str());
            run += 1;
        }
        let page_size: usize = storage.page_size();
        if entry_counts.len() == 0 {
            return Ok(());
        }
        let num_entries: usize = entry_counts[0];
        if !has_inner_nodes(num_entries, page_size) {
            return Ok(());
        }
        proof {
            lemma_without_indexes_keeps_runs(base, db_name@, level, num_runs as nat, 0);
            if sound {
                crate::serde_entry::lemma_serde_round_trip(result);
                assert(base.contains_key(filename::spec_sst_path(db_name@, level, 0)));
                assert(base[filename::spec_sst_path(db_name@, level, 0)] == entries_bytes(result));
            }
        }
        let delimiters = match Self::page_delimiters(storage, db_name, level, 0, num_entries) {
            Ok(list) => list,
            Err(e) => {
                return Err(e);
            },
        };
        let image = build_index(delimiters, page_size);
        let path = filename::sst_btree_path(db_name, level, 0);
        storage.write_file(path.as_str(), image);
        Ok(())
    }
}

} // verus!
