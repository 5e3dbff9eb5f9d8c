//! The database: a memtable over levels of runs. Writes go to the
//! memtable, which is flushed to a new run when it is full; reads look
//! through the memtable and the runs from the youngest to the oldest.
//! Lower levels hold younger data than higher ones, and within a level a
//! run with a higher index is younger.

use crate::algorithm::strictly_ascending;
use crate::array_sst::{self, compacted_files, level_runs, level_sound, without_runs};
use crate::btree_sst::{compacted_with_index, without_indexes};
use crate::btree_util::{div_ceil, power};
use crate::serde_entry::entries_bytes;
use crate::sst::{scan_run, search_run, SortedStringTable};
use crate::bloom_filter::BloomFilter;
use crate::bloom_io::{bitmap_fits, bloom_covers, run_ok, BloomFilterIO};
use crate::avl::{lemma_upsert, upsert};
use crate::btree_sst;
use crate::extendible_hash_table::MAX_DIRECTORY_SIZE;
use crate::direct_io::Disk;
use crate::file_interface::Storage;
use crate::filename;
use crate::memtable::Memtable;
use crate::merge_k_lists::{
    all_ascending, is_merge, kept, merge_runs, merged, newest_value, runs_view,
};
use crate::serde_entry::entries_from_bytes;
use crate::sst_util::{holds_key, in_range, lemma_lookup_at, lookup};
use crate::system_info::{entries_per_page, spec_entries_per_page, valid_page_size};
use crate::types::{
    CompactionPolicy, Entry, Key, Level, Run, Size, SstImplementation, SstSearchAlgorithm,
    StoreError, Value, INVALID_KEY, TOMBSTONE_VALUE,
};
use vstd::prelude::*;
use vstd::string::StringExecFns;

verus! {

/// Size ratio between the levels of a new database.
pub const DEFAULT_SST_SIZE_RATIO: Size = 2;

/// Capacity in pages of the buffer pool of a new database.
pub const DEFAULT_BUFFER_POOL_CAPACITY: Size = 2560;

/// Number of buckets of the buffer pool of a new database.
pub const DEFAULT_BUFFER_POOL_INITIAL_SIZE: Size = 97;

/// Bits per entry of the Bloom filters of a new database.
pub const DEFAULT_BITS_PER_ENTRY: Size = 5;

/// The level that the memtable is flushed to.
pub const LEVEL_ZERO: Level = 0;

/// The knobs of a database.
#[derive(Clone, Copy, Debug)]
pub struct Config {
    /// Number of entries at which the memtable is flushed.
    pub memtable_capacity: Size,
    /// Size ratio between one level and the next.
    pub sst_size_ratio: Size,
    pub sst_implementation: SstImplementation,
    pub sst_search_algorithm: SstSearchAlgorithm,
    pub enable_buffer_pool: bool,
    /// Capacity of the buffer pool in pages.
    pub buffer_pool_capacity: Size,
    /// Number of buckets that the buffer pool starts with.
    pub buffer_pool_initial_size: Size,
    pub compaction_policy: CompactionPolicy,
    pub enable_bloom_filter: bool,
    pub bloom_filter_bits_per_entry: Size,
}

impl Config {
    /// The knobs of a new database with pages of `page_size` bytes.
    pub open spec fn spec_new(page_size: usize) -> Config {
        Config {
            memtable_capacity: spec_entries_per_page(page_size),
            sst_size_ratio: DEFAULT_SST_SIZE_RATIO,
            sst_implementation: SstImplementation::Array,
            sst_search_algorithm: SstSearchAlgorithm::Default,
            enable_buffer_pool: true,
            buffer_pool_capacity: DEFAULT_BUFFER_POOL_CAPACITY,
            buffer_pool_initial_size: DEFAULT_BUFFER_POOL_INITIAL_SIZE,
            compaction_policy: CompactionPolicy::NoCompaction,
            enable_bloom_filter: true,
            bloom_filter_bits_per_entry: DEFAULT_BITS_PER_ENTRY,
        }
    }

    /// The knobs of a new database with pages of `page_size` bytes: a
    /// memtable of one page, and the defaults for the rest.
    pub fn new(page_size: usize) -> (config: Self)
        ensures
            config == Self::spec_new(page_size),
            config.memtable_capacity == spec_entries_per_page(page_size),
            config.sst_size_ratio == DEFAULT_SST_SIZE_RATIO,
            config.sst_implementation == SstImplementation::Array,
            config.sst_search_algorithm == SstSearchAlgorithm::Default,
            config.enable_buffer_pool,
            config.buffer_pool_capacity == DEFAULT_BUFFER_POOL_CAPACITY,
            config.buffer_pool_initial_size == DEFAULT_BUFFER_POOL_INITIAL_SIZE,
            config.compaction_policy == CompactionPolicy::NoCompaction,
            config.enable_bloom_filter,
            config.bloom_filter_bits_per_entry == DEFAULT_BITS_PER_ENTRY,
    {
        Self {
            memtable_capacity: entries_per_page(page_size),
            sst_size_ratio: DEFAULT_SST_SIZE_RATIO,
            sst_implementation: SstImplementation::Array,
            sst_search_algorithm: SstSearchAlgorithm::Default,
            enable_buffer_pool: true,
            buffer_pool_capacity: DEFAULT_BUFFER_POOL_CAPACITY,
            buffer_pool_initial_size: DEFAULT_BUFFER_POOL_INITIAL_SIZE,
            compaction_policy: CompactionPolicy::NoCompaction,
            enable_bloom_filter: true,
            bloom_filter_bits_per_entry: DEFAULT_BITS_PER_ENTRY,
        }
    }
}

/// What a database records of its runs: for every level the numbers of
/// entries of its runs.
#[derive(Debug)]
pub struct Metadata {
    pub entry_counts: Vec<Vec<Size>>,
}

impl Metadata {
    /// The record of a database without runs: one level, empty.
    pub fn new() -> (metadata: Self)
        ensures
            metadata.entry_counts@.len() == 1,
            metadata.entry_counts@[0]@ == Seq::<Size>::empty(),
    {
        let mut entry_counts: Vec<Vec<Size>> = Vec::new();
        entry_counts.push(Vec::new());
        Self { entry_counts }
    }
}

/// The numbers of entries of the runs, by level.
pub open spec fn counts_view(entry_counts: Seq<Vec<Size>>) -> Seq<Seq<Size>> {
    Seq::new(entry_counts.len(), |level: int| entry_counts[level]@)
}

/// The memtable after `key` is set to `value` in it: a memtable that has
/// reached `capacity` entries is flushed first.
pub open spec fn memtable_after(entries: Seq<Entry>, capacity: Size, key: Key, value: Value) -> Seq<
    Entry,
> {
    upsert(
        if entries.len() >= capacity {
            Seq::empty()
        } else {
            entries
        },
        key,
        value,
    )
}

/// The runs of the levels from `from_level` on, the oldest first: the runs
/// of a higher level come before those of a lower one, and within a level
/// the runs come by their index.
pub open spec fn disk_layers(
    files: Map<Seq<char>, Seq<u8>>,
    db_name: Seq<char>,
    counts: Seq<Seq<Size>>,
    from_level: int,
) -> Seq<Seq<Entry>>
    decreases counts.len() - from_level,
{
    if from_level < 0 || from_level >= counts.len() {
        Seq::empty()
    } else {
        disk_layers(files, db_name, counts, from_level + 1) + level_runs(
            files,
            db_name,
            from_level as usize,
            counts[from_level].len(),
        )
    }
}

/// The entries of the recorded runs, by level and by run.
pub open spec fn level_contents(
    files: Map<Seq<char>, Seq<u8>>,
    db_name: Seq<char>,
    counts: Seq<Seq<Size>>,
) -> Seq<Seq<Seq<Entry>>> {
    Seq::new(
        counts.len(),
        |level: int| level_runs(files, db_name, level as usize, counts[level].len()),
    )
}

/// What compacting leaves of the runs of a level: fewer than two runs stay
/// as they are, and two or more become their merge, or nothing where the
/// merge is empty.
pub open spec fn compacted_runs(runs: Seq<Seq<Entry>>, discard_tombstones: bool) -> Seq<Seq<Entry>> {
    if runs.len() < 2 {
        runs
    } else if merged(runs, discard_tombstones).len() == 0 {
        Seq::empty()
    } else {
        seq![merged(runs, discard_tombstones)]
    }
}

/// The levels after the runs of level `level` went behind the runs of the
/// next level, which is new where there was none.
pub open spec fn moved_levels(levels: Seq<Seq<Seq<Entry>>>, level: int) -> Seq<Seq<Seq<Entry>>> {
    let widened = if level + 1 < levels.len() {
        levels
    } else {
        levels.push(Seq::empty())
    };
    widened.update(level + 1, widened[level + 1] + levels[level]).update(level, Seq::empty())
}

/// The levels after the runs of level `level` were moved to the next
/// level and the compaction policy has looked at that level. An empty
/// level is not moved, nor a level at the depth that a database grows to.
pub open spec fn after_moving(levels: Seq<Seq<Seq<Entry>>>, config: Config, level: int) -> Seq<
    Seq<Seq<Entry>>,
>
    decreases MAX_LEVELS - level, 0int,
{
    if level < 0 || level >= levels.len() || levels[level].len() == 0 || level + 1 >= MAX_LEVELS {
        levels
    } else if moved_levels(levels, level)[level + 1].len() > usize::MAX {
        levels
    } else {
        after_handling(moved_levels(levels, level), config, level + 1)
    }
}

/// The levels after the compaction policy has looked at level `level`.
/// The leveled policy merges the runs of the level, and moves the merged
/// run on where it fills the level; it leaves the first level alone. The
/// tiered policy merges and moves the runs of a level, the first level too,
/// that holds as many runs as the size ratio says. The third policy is
/// leveled at the last level and tiered at the others. Tombstones are
/// discarded at the last level.
pub open spec fn after_handling(levels: Seq<Seq<Seq<Entry>>>, config: Config, level: int) -> Seq<
    Seq<Seq<Entry>>,
>
    decreases MAX_LEVELS - level, 1int,
{
    if level < 0 || level >= levels.len() || level >= MAX_LEVELS {
        levels
    } else {
        let is_last = level == levels.len() - 1;
        let compacted = levels.update(level, compacted_runs(levels[level], is_last));
        let leveled = config.compaction_policy == CompactionPolicy::Leveled || (
        config.compaction_policy == CompactionPolicy::Dovstoevsky && is_last);
        if config.compaction_policy == CompactionPolicy::NoCompaction {
            levels
        } else if leveled && level == 0 {
            levels
        } else if leveled {
            let num_entries = if compacted[level].len() > 0 {
                compacted[level][0].len()
            } else {
                0
            };
            if spec_fills_level(
                num_entries as usize,
                config.memtable_capacity,
                config.sst_size_ratio,
                level as usize,
            ) {
                after_moving(compacted, config, level)
            } else {
                compacted
            }
        } else if levels[level].len() >= config.sst_size_ratio {
            after_moving(compacted, config, level)
        } else {
            levels
        }
    }
}

/// The levels after a memtable with `entries` was flushed: nothing happens
/// without entries; under a compaction policy the runs of the first level
/// move on first; then the entries are the youngest run of the first
/// level, which the compaction policy looks at.
pub open spec fn after_flush(levels: Seq<Seq<Seq<Entry>>>, config: Config, entries: Seq<Entry>) -> Seq<
    Seq<Seq<Entry>>,
> {
    if entries.len() == 0 {
        levels
    } else {
        let moved = if config.compaction_policy == CompactionPolicy::NoCompaction {
            levels
        } else {
            after_moving(levels, config, 0)
        };
        after_handling(moved.update(0, moved[0].push(entries)), config, 0)
    }
}

/// The levels after the runs of one level were moved behind the runs of
/// the next.
pub proof fn lemma_levels_after_move(
    files: Map<Seq<char>, Seq<u8>>,
    after: Map<Seq<char>, Seq<u8>>,
    db_name: Seq<char>,
    counts: Seq<Seq<Size>>,
    after_counts: Seq<Seq<Size>>,
    level: Level,
)
    requires
        countable(counts),
        countable(after_counts),
        level < counts.len(),
        level + 1 < after_counts.len(),
        after_counts.len() == if level + 1 < counts.len() {
            counts.len()
        } else {
            counts.len() + 1
        },
        forall|l: int|
            0 <= l < counts.len() && l != level && l != level + 1 ==> after_counts[l] == counts[l],
        after_counts[level as int] == Seq::<Size>::empty(),
        after_counts[level + 1] == (if level + 1 < counts.len() {
            counts[level + 1]
        } else {
            Seq::<Size>::empty()
        }) + counts[level as int],
        forall|run: usize|
            run < counts[level as int].len() ==> after[#[trigger] filename::spec_sst_path(
                db_name,
                (level + 1) as usize,
                (after_counts[level + 1].len() - counts[level as int].len() + run) as usize,
            )] == files[filename::spec_sst_path(db_name, level, run)],
        forall|l: usize, run: usize|
            l < counts.len() && l != level && run < counts[l as int].len() ==> after[#[trigger] filename::spec_sst_path(
                db_name,
                l,
                run,
            )] == files[filename::spec_sst_path(db_name, l, run)],
    ensures
        level_contents(after, db_name, after_counts) == moved_levels(
            level_contents(files, db_name, counts),
            level as int,
        ),
{
    let before = level_contents(files, db_name, counts);
    let left = level_contents(after, db_name, after_counts);
    let right = moved_levels(before, level as int);
    let next = (level + 1) as usize;
    let moved = counts[level as int].len();
    let there = (after_counts[level + 1].len() - moved) as usize;
    assert(left.len() == right.len());
    assert forall|l: int| 0 <= l < left.len() implies left[l] == right[l] by {
        if l == level {
            assert(left[l] =~= Seq::<Seq<Entry>>::empty());
        } else if l == level + 1 {
            let old_next = if level + 1 < counts.len() {
                before[level + 1]
            } else {
                Seq::<Seq<Entry>>::empty()
            };
            let joined = old_next + before[level as int];
            assert(right[l] == joined);
            assert(left[l].len() == joined.len());
            assert forall|r: int| 0 <= r < left[l].len() implies left[l][r] == joined[r] by {
                if r < there {
                    let run = r as usize;
                    assert(after[filename::spec_sst_path(db_name, next, run)] == files[filename::spec_sst_path(
                        db_name,
                        next,
                        run,
                    )]);
                } else {
                    let from = (r - there) as usize;
                    assert(after[filename::spec_sst_path(db_name, next, (there + from) as usize)]
                        == files[filename::spec_sst_path(db_name, level, from)]);
                }
            }
            assert(left[l] =~= joined);
        } else {
            let other_level = l as usize;
            assert forall|run: int| 0 <= run < counts[l].len() implies after[#[trigger] filename::spec_sst_path(
                db_name,
                other_level,
                run as usize,
            )] == files[filename::spec_sst_path(db_name, other_level, run as usize)] by {
                let r = run as usize;
                assert(after[filename::spec_sst_path(db_name, other_level, r)] == files[filename::spec_sst_path(
                    db_name,
                    other_level,
                    r,
                )]);
            }
            lemma_level_runs_frame(files, after, db_name, other_level, counts[l].len());
        }
    }
    assert(left =~= right);
}

/// The runs of the levels from `from_level` on, the oldest first: the runs
/// of a deeper level come before those of a level above it.
pub open spec fn stacked(levels: Seq<Seq<Seq<Entry>>>, from_level: int) -> Seq<Seq<Entry>>
    decreases levels.len() - from_level,
{
    if from_level < 0 || from_level >= levels.len() {
        Seq::empty()
    } else {
        stacked(levels, from_level + 1) + levels[from_level]
    }
}

/// The layers on disk are the runs of the levels, stacked.
pub proof fn lemma_layers_are_stacked_levels(
    files: Map<Seq<char>, Seq<u8>>,
    db_name: Seq<char>,
    counts: Seq<Seq<Size>>,
    from_level: int,
)
    ensures
        disk_layers(files, db_name, counts, from_level) == stacked(
            level_contents(files, db_name, counts),
            from_level,
        ),
    decreases counts.len() - from_level,
{
    if 0 <= from_level < counts.len() {
        lemma_layers_are_stacked_levels(files, db_name, counts, from_level + 1);
    }
}

/// The levels where all but one are as they were.
pub proof fn lemma_levels_with_one_changed(
    files: Map<Seq<char>, Seq<u8>>,
    after: Map<Seq<char>, Seq<u8>>,
    db_name: Seq<char>,
    counts: Seq<Seq<Size>>,
    after_counts: Seq<Seq<Size>>,
    level: Level,
    runs: Seq<Seq<Entry>>,
)
    requires
        countable(counts),
        level < counts.len(),
        after_counts.len() == counts.len(),
        forall|l: int| 0 <= l < counts.len() && l != level ==> after_counts[l] == counts[l],
        forall|other_level: usize, run: usize|
            other_level != level ==> after[#[trigger] filename::spec_sst_path(
                db_name,
                other_level,
                run,
            )] == files[filename::spec_sst_path(db_name, other_level, run)],
        level_runs(after, db_name, level, after_counts[level as int].len()) == runs,
    ensures
        level_contents(after, db_name, after_counts) == level_contents(files, db_name, counts).update(
            level as int,
            runs,
        ),
{
    let left = level_contents(after, db_name, after_counts);
    let right = level_contents(files, db_name, counts).update(level as int, runs);
    assert forall|l: int| 0 <= l < counts.len() implies left[l] == right[l] by {
        if l != level {
            let other_level = l as usize;
            assert forall|run: int| 0 <= run < counts[l].len() implies after[#[trigger] filename::spec_sst_path(
                db_name,
                other_level,
                run as usize,
            )] == files[filename::spec_sst_path(db_name, other_level, run as usize)] by {
                let r = run as usize;
                assert(after[filename::spec_sst_path(db_name, other_level, r)] == files[filename::spec_sst_path(
                    db_name,
                    other_level,
                    r,
                )]);
            }
            lemma_level_runs_frame(files, after, db_name, other_level, counts[l].len());
        }
    }
    assert(left =~= right);
}

/// The value that a reader sees for `key` in layers of entries, the
/// youngest layer last: that of the youngest layer that holds the key,
/// unless it is a tombstone.
pub open spec fn visible(layers: Seq<Seq<Entry>>, key: Key) -> Option<Value> {
    match newest_value(layers, key) {
        Some(value) => if value == TOMBSTONE_VALUE {
            None
        } else {
            Some(value)
        },
        None => None,
    }
}

/// Every run that is recorded is a file of as many entries as recorded,
/// in strictly ascending order.
pub open spec fn runs_sound(
    files: Map<Seq<char>, Seq<u8>>,
    db_name: Seq<char>,
    counts: Seq<Seq<Size>>,
) -> bool {
    forall|level: usize, run: usize|
        level < counts.len() && run < counts[level as int].len() ==> #[trigger] run_ok(
            files,
            db_name,
            level,
            run,
            counts[level as int][run as int],
        )
}

/// Every Bloom filter that is stored for a recorded run lets the keys of
/// the run pass.
pub open spec fn blooms_sound(
    files: Map<Seq<char>, Seq<u8>>,
    db_name: Seq<char>,
    counts: Seq<Seq<Size>>,
    bits_per_entry: Size,
) -> bool {
    forall|level: usize, run: usize|
        level < counts.len() && run < counts[level as int].len() && files.contains_key(
            #[trigger] filename::spec_bloom_filter_path(db_name, level, run),
        ) ==> bloom_covers(
            files[filename::spec_bloom_filter_path(db_name, level, run)],
            bits_per_entry,
            entries_from_bytes(files[filename::spec_sst_path(db_name, level, run)]),
        )
}

/// The levels and the runs of every level can be counted in the machine's
/// integers.
pub open spec fn countable(counts: Seq<Seq<Size>>) -> bool {
    &&& counts.len() <= usize::MAX
    &&& forall|level: int| 0 <= level < counts.len() ==> (#[trigger] counts[level]).len() <= usize::MAX
}

/// The youngest layers decide: the value of a key in layers followed by
/// younger layers is that of the younger layers where they hold the key.
pub proof fn lemma_newest_concat(older: Seq<Seq<Entry>>, younger: Seq<Seq<Entry>>, key: Key)
    ensures
        newest_value(older + younger, key) == match newest_value(younger, key) {
            Some(value) => Some(value),
            None => newest_value(older, key),
        },
    decreases younger.len(),
{
    if younger.len() == 0 {
        assert(older + younger =~= older);
    } else {
        assert((older + younger).last() == younger.last());
        assert((older + younger).drop_last() =~= older + younger.drop_last());
        lemma_newest_concat(older, younger.drop_last(), key);
    }
}

/// The runs of a level, one run more.
pub proof fn lemma_level_runs_push(
    files: Map<Seq<char>, Seq<u8>>,
    db_name: Seq<char>,
    level: Level,
    count: nat,
)
    ensures
        level_runs(files, db_name, level, count + 1) == level_runs(files, db_name, level, count).push(
            entries_from_bytes(files[filename::spec_sst_path(db_name, level, count as usize)]),
        ),
{
    assert(level_runs(files, db_name, level, count + 1) =~= level_runs(
        files,
        db_name,
        level,
        count,
    ).push(entries_from_bytes(files[filename::spec_sst_path(db_name, level, count as usize)])));
}

/// A path that is none of the three files of run `run` of level `level`.
pub open spec fn beside_run(db_name: Seq<char>, level: Level, run: Run, path: Seq<char>) -> bool {
    &&& path != filename::spec_sst_path(db_name, level, run)
    &&& path != filename::spec_sst_btree_path(db_name, level, run)
    &&& path != filename::spec_bloom_filter_path(db_name, level, run)
}

/// The files of entries and the Bloom filters of two different runs are
/// different files, and none of them is the index of either run.
pub proof fn lemma_runs_apart(db_name: Seq<char>, level: Level, run: Run, other_level: Level, other_run: Run)
    requires
        level != other_level || run != other_run,
    ensures
        beside_run(db_name, level, run, filename::spec_sst_path(db_name, other_level, other_run)),
        beside_run(
            db_name,
            level,
            run,
            filename::spec_bloom_filter_path(db_name, other_level, other_run),
        ),
        beside_run(
            db_name,
            level,
            run,
            filename::spec_sst_btree_path(db_name, other_level, other_run),
        ),
{
    filename::lemma_extensions_differ();
    filename::lemma_paths_are_run_paths(db_name, level, run);
    filename::lemma_paths_are_run_paths(db_name, other_level, other_run);
    let sst = "sst"@;
    let btree = "btree"@;
    let bloom = "bloom"@;
    let a = seq![sst, btree, bloom];
    assert forall|i: int, j: int| 0 <= i < 3 && 0 <= j < 3 implies filename::spec_run_path(
        db_name,
        level,
        run,
        #[trigger] a[i],
    ) != filename::spec_run_path(db_name, other_level, other_run, #[trigger] a[j]) by {
        if filename::spec_run_path(db_name, level, run, a[i]) == filename::spec_run_path(
            db_name,
            other_level,
            other_run,
            a[j],
        ) {
            filename::lemma_run_path_injective(
                db_name,
                level,
                run,
                a[i],
                other_level,
                other_run,
                a[j],
            );
        }
    }
    assert(a[0] == sst && a[1] == btree && a[2] == bloom);
}

/// The three files of one run are different files.
pub proof fn lemma_run_files_apart(db_name: Seq<char>, level: Level, run: Run)
    ensures
        filename::spec_sst_path(db_name, level, run) != filename::spec_sst_btree_path(
            db_name,
            level,
            run,
        ),
        filename::spec_sst_path(db_name, level, run) != filename::spec_bloom_filter_path(
            db_name,
            level,
            run,
        ),
        filename::spec_sst_btree_path(db_name, level, run) != filename::spec_bloom_filter_path(
            db_name,
            level,
            run,
        ),
{
    filename::lemma_extensions_differ();
    filename::lemma_paths_are_run_paths(db_name, level, run);
    let sst = "sst"@;
    let btree = "btree"@;
    let bloom = "bloom"@;
    if filename::spec_run_path(db_name, level, run, sst) == filename::spec_run_path(
        db_name,
        level,
        run,
        btree,
    ) {
        filename::lemma_run_path_injective(db_name, level, run, sst, level, run, btree);
    }
    if filename::spec_run_path(db_name, level, run, sst) == filename::spec_run_path(
        db_name,
        level,
        run,
        bloom,
    ) {
        filename::lemma_run_path_injective(db_name, level, run, sst, level, run, bloom);
    }
    if filename::spec_run_path(db_name, level, run, btree) == filename::spec_run_path(
        db_name,
        level,
        run,
        bloom,
    ) {
        filename::lemma_run_path_injective(db_name, level, run, btree, level, run, bloom);
    }
}

/// Two sets of files hold the same entries for the recorded runs of the
/// levels from `from_level` up to, but not including, `to_level`.
pub open spec fn same_runs(
    files: Map<Seq<char>, Seq<u8>>,
    other: Map<Seq<char>, Seq<u8>>,
    db_name: Seq<char>,
    counts: Seq<Seq<Size>>,
    from_level: int,
    to_level: int,
) -> bool {
    forall|level: usize, run: usize|
        from_level <= level < to_level && level < counts.len() && run < counts[level as int].len()
            ==> other[#[trigger] filename::spec_sst_path(db_name, level, run)]
            == files[filename::spec_sst_path(db_name, level, run)]
}

/// The runs of a level are the same where their files hold the same.
pub proof fn lemma_level_runs_frame(
    files: Map<Seq<char>, Seq<u8>>,
    other: Map<Seq<char>, Seq<u8>>,
    db_name: Seq<char>,
    level: Level,
    count: nat,
)
    requires
        forall|run: int|
            0 <= run < count ==> other[#[trigger] filename::spec_sst_path(
                db_name,
                level,
                run as usize,
            )] == files[filename::spec_sst_path(db_name, level, run as usize)],
    ensures
        level_runs(other, db_name, level, count) == level_runs(files, db_name, level, count),
{
    assert(level_runs(other, db_name, level, count) =~= level_runs(files, db_name, level, count));
}

/// The levels are the same where the files of the recorded runs hold the
/// same.
pub proof fn lemma_levels_frame(
    files: Map<Seq<char>, Seq<u8>>,
    after: Map<Seq<char>, Seq<u8>>,
    db_name: Seq<char>,
    counts: Seq<Seq<Size>>,
)
    requires
        countable(counts),
        same_runs(files, after, db_name, counts, 0, counts.len() as int),
    ensures
        level_contents(after, db_name, counts) == level_contents(files, db_name, counts),
{
    let left = level_contents(after, db_name, counts);
    let right = level_contents(files, db_name, counts);
    assert forall|l: int| 0 <= l < counts.len() implies left[l] == right[l] by {
        let level = l as usize;
        assert forall|run: int| 0 <= run < counts[l].len() implies after[#[trigger] filename::spec_sst_path(
            db_name,
            level,
            run as usize,
        )] == files[filename::spec_sst_path(db_name, level, run as usize)] by {
            let r = run as usize;
            assert(after[filename::spec_sst_path(db_name, level, r)] == files[filename::spec_sst_path(
                db_name,
                level,
                r,
            )]);
        }
        lemma_level_runs_frame(files, after, db_name, level, counts[l].len());
    }
    assert(left =~= right);
}

/// The layers of the levels from `from_level` on are the same where those
/// levels record the same runs and the files of the runs hold the same.
pub proof fn lemma_disk_layers_frame(
    files: Map<Seq<char>, Seq<u8>>,
    other: Map<Seq<char>, Seq<u8>>,
    db_name: Seq<char>,
    counts: Seq<Seq<Size>>,
    other_counts: Seq<Seq<Size>>,
    from_level: int,
)
    requires
        0 <= from_level,
        countable(counts),
        counts.len() == other_counts.len(),
        forall|level: int| from_level <= level < counts.len() ==> counts[level] == other_counts[level],
        same_runs(files, other, db_name, counts, from_level, counts.len() as int),
    ensures
        disk_layers(other, db_name, other_counts, from_level) == disk_layers(
            files,
            db_name,
            counts,
            from_level,
        ),
    decreases counts.len() - from_level,
{
    if from_level < counts.len() {
        lemma_disk_layers_frame(files, other, db_name, counts, other_counts, from_level + 1);
        assert forall|run: int| 0 <= run < counts[from_level].len() implies other[#[trigger] filename::spec_sst_path(
            db_name,
            from_level as usize,
            run as usize,
        )] == files[filename::spec_sst_path(db_name, from_level as usize, run as usize)] by {
            let l = from_level as usize;
            let r = run as usize;
            assert(other[filename::spec_sst_path(db_name, l, r)] == files[filename::spec_sst_path(
                db_name,
                l,
                r,
            )]);
        }
        lemma_level_runs_frame(files, other, db_name, from_level as usize, counts[from_level].len());
    }
}

/// Recording a new run at the first level, whose files were written and
/// no others, keeps the database sound and adds the run as the youngest
/// layer on disk.
pub proof fn lemma_append_run(
    files: Map<Seq<char>, Seq<u8>>,
    after: Map<Seq<char>, Seq<u8>>,
    db_name: Seq<char>,
    counts: Seq<Seq<Size>>,
    entries: Seq<Entry>,
    bits_per_entry: Size,
)
    requires
        counts.len() >= 1,
        countable(counts),
        runs_sound(files, db_name, counts),
        blooms_sound(files, db_name, counts, bits_per_entry),
        strictly_ascending(entries),
        entries.len() <= usize::MAX,
        counts[0].len() < usize::MAX,
        ({
            let run = counts[0].len() as usize;
            let path = filename::spec_sst_path(db_name, 0, run);
            let bloom = filename::spec_bloom_filter_path(db_name, 0, run);
            &&& after.contains_key(path)
            &&& after[path] == crate::serde_entry::entries_bytes(entries)
            &&& after.contains_key(bloom) ==> bloom_covers(after[bloom], bits_per_entry, entries)
            &&& forall|other: Seq<char>| #[trigger]
                beside_run(db_name, 0, run, other) ==> after.contains_key(other) == files.contains_key(
                    other,
                ) && after[other] == files[other]
        }),
    ensures
        ({
            let grown = counts.update(0, counts[0].push(entries.len() as usize));
            &&& runs_sound(after, db_name, grown)
            &&& blooms_sound(after, db_name, grown, bits_per_entry)
            &&& disk_layers(after, db_name, grown, 0) == disk_layers(files, db_name, counts, 0).push(
                entries,
            )
            &&& level_contents(after, db_name, grown) == level_contents(files, db_name, counts).update(
                0,
                level_contents(files, db_name, counts)[0].push(entries),
            )
        }),
{
    let new_run = counts[0].len() as usize;
    let grown = counts.update(0, counts[0].push(entries.len() as usize));
    let path = filename::spec_sst_path(db_name, 0, new_run);
    crate::serde_entry::lemma_serde_round_trip(entries);
    lemma_run_files_apart(db_name, 0, new_run);
    assert(level_contents(after, db_name, grown) == level_contents(files, db_name, counts).update(
        0,
        level_contents(files, db_name, counts)[0].push(entries),
    )) by {
        assert forall|other_level: usize, run: usize| other_level != 0 implies after[#[trigger] filename::spec_sst_path(
            db_name,
            other_level,
            run,
        )] == files[filename::spec_sst_path(db_name, other_level, run)] by {
            lemma_runs_apart(db_name, 0, new_run, other_level, run);
        }
        assert forall|run: int| 0 <= run < counts[0].len() implies after[#[trigger] filename::spec_sst_path(
            db_name,
            0,
            run as usize,
        )] == files[filename::spec_sst_path(db_name, 0, run as usize)] by {
            lemma_runs_apart(db_name, 0, new_run, 0, run as usize);
        }
        lemma_level_runs_frame(files, after, db_name, 0, counts[0].len());
        lemma_level_runs_push(after, db_name, 0, counts[0].len());
        lemma_levels_with_one_changed(
            files,
            after,
            db_name,
            counts,
            grown,
            0,
            level_runs(files, db_name, 0, counts[0].len()).push(entries),
        );
    }
    assert forall|level: usize, run: usize|
        level < grown.len() && run < grown[level as int].len() implies #[trigger] run_ok(
        after,
        db_name,
        level,
        run,
        grown[level as int][run as int],
    ) by {
        if level == 0 && run == new_run {
        } else {
            lemma_runs_apart(db_name, 0, new_run, level, run);
            assert(run_ok(files, db_name, level, run, counts[level as int][run as int]));
        }
    }
    assert forall|level: usize, run: usize|
        level < grown.len() && run < grown[level as int].len() && after.contains_key(
            #[trigger] filename::spec_bloom_filter_path(db_name, level, run),
        ) implies bloom_covers(
        after[filename::spec_bloom_filter_path(db_name, level, run)],
        bits_per_entry,
        entries_from_bytes(after[filename::spec_sst_path(db_name, level, run)]),
    ) by {
        if level == 0 && run == new_run {
        } else {
            lemma_runs_apart(db_name, 0, new_run, level, run);
            assert(files.contains_key(filename::spec_bloom_filter_path(db_name, level, run)));
        }
    }
    // The layers: the levels below the first are as they were, and the
    // first level has one run more.
    assert(same_runs(files, after, db_name, counts, 0, counts.len() as int)) by {
        assert forall|level: usize, run: usize|
            level < counts.len() && run < counts[level as int].len() implies after[#[trigger] filename::spec_sst_path(
            db_name,
            level,
            run,
        )] == files[filename::spec_sst_path(db_name, level, run)] by {
            lemma_runs_apart(db_name, 0, new_run, level, run);
        }
    }
    lemma_disk_layers_frame(files, after, db_name, counts, grown, 1);
    assert forall|run: int| 0 <= run < counts[0].len() implies after[#[trigger] filename::spec_sst_path(
        db_name,
        0,
        run as usize,
    )] == files[filename::spec_sst_path(db_name, 0, run as usize)] by {
        let r = run as usize;
        assert(after[filename::spec_sst_path(db_name, 0usize, r)] == files[filename::spec_sst_path(
            db_name,
            0usize,
            r,
        )]);
    }
    lemma_level_runs_frame(files, after, db_name, 0, counts[0].len());
    lemma_level_runs_push(after, db_name, 0, counts[0].len());
    assert(grown[0].len() == counts[0].len() + 1);
    let deeper = disk_layers(files, db_name, counts, 1);
    let first = level_runs(files, db_name, 0, counts[0].len());
    assert(deeper + first.push(entries) =~= (deeper + first).push(entries));
}

/// Setting a key in the youngest layer shows the value for that key, where
/// it is no tombstone, and leaves what is shown for every other key.
pub proof fn lemma_put_visible(
    disk: Seq<Seq<Entry>>,
    memtable: Seq<Entry>,
    key: Key,
    value: Value,
    other: Key,
)
    requires
        strictly_ascending(memtable),
    ensures
        visible(disk.push(upsert(memtable, key, value)), other) == if other == key {
            if value == TOMBSTONE_VALUE {
                None
            } else {
                Some(value)
            }
        } else {
            visible(disk.push(memtable), other)
        },
{
    lemma_upsert(memtable, key, value);
    let after = disk.push(upsert(memtable, key, value));
    let before = disk.push(memtable);
    assert(after.last() == upsert(memtable, key, value));
    assert(after.drop_last() =~= disk);
    assert(before.last() == memtable);
    assert(before.drop_last() =~= disk);
}

/// An empty layer on top shows nothing new.
pub proof fn lemma_empty_layer(layers: Seq<Seq<Entry>>, key: Key)
    ensures
        newest_value(layers.push(Seq::<Entry>::empty()), key) == newest_value(layers, key),
{
    let grown = layers.push(Seq::<Entry>::empty());
    assert(grown.last() == Seq::<Entry>::empty());
    assert(grown.drop_last() =~= layers);
}

/// The entries of ascending entries that lie in an interval ascend too,
/// and a key in the interval has among them the value that it had.
pub proof fn lemma_in_range(entries: Seq<Entry>, lo: Key, hi: Key)
    requires
        strictly_ascending(entries),
    ensures
        strictly_ascending(in_range(entries, lo, hi)),
        forall|key: Key| #[trigger]
            lookup(in_range(entries, lo, hi), key) == if lo <= key <= hi {
                lookup(entries, key)
            } else {
                None
            },
    decreases entries.len(),
{
    reveal(Seq::filter);
    let part = in_range(entries, lo, hi);
    if entries.len() == 0 {
        assert forall|key: Key| #[trigger]
            lookup(part, key) == if lo <= key <= hi {
                lookup(entries, key)
            } else {
                None
            } by {}
    } else {
        let front = entries.drop_last();
        let last = entries.last();
        assert(strictly_ascending(front)) by {
            assert forall|i: int, j: int| 0 <= i < j < front.len() implies front[i].0 < front[j].0 by {
                assert(front[i] == entries[i]);
                assert(front[j] == entries[j]);
            }
        }
        lemma_in_range(front, lo, hi);
        let inner = in_range(front, lo, hi);
        // Every entry of the inner part is an entry of the front.
        assert forall|i: int| 0 <= i < inner.len() implies (#[trigger] inner[i]).0 < last.0 by {
            let key = inner[i].0;
            lemma_lookup_at(inner, i);
            assert(lookup(inner, key) is Some);
            assert(lo <= key <= hi);
            assert(holds_key(front, key));
            let x = choose|x: int| 0 <= x < front.len() && (#[trigger] front[x]).0 == key;
            assert(entries[x].0 < entries[entries.len() - 1].0);
        }
        if lo <= last.0 <= hi {
            assert(part == inner.push(last));
            assert forall|i: int, j: int| 0 <= i < j < part.len() implies part[i].0 < part[j].0 by {
                if j < inner.len() {
                    assert(inner[i].0 < inner[j].0);
                } else {
                    assert(part[i] == inner[i]);
                }
            }
        } else {
            assert(part == inner);
        }
        assert forall|key: Key| #[trigger]
            lookup(part, key) == if lo <= key <= hi {
                lookup(entries, key)
            } else {
                None
            } by {
            let shown = lookup(inner, key);
            if key == last.0 {
                lemma_lookup_at(entries, entries.len() - 1);
                assert(!holds_key(inner, key)) by {
                    if holds_key(inner, key) {
                        let i = choose|i: int| 0 <= i < inner.len() && (#[trigger] inner[i]).0 == key;
                    }
                }
                if lo <= key <= hi {
                    lemma_lookup_at(part, part.len() - 1);
                } else {
                }
            } else {
                // The key is looked up in the front, on both sides.
                assert(holds_key(entries, key) == holds_key(front, key)) by {
                    if holds_key(entries, key) {
                        let i = choose|i: int| 0 <= i < entries.len() && (#[trigger] entries[i]).0 == key;
                        assert(front[i].0 == key);
                    }
                    if holds_key(front, key) {
                        let i = choose|i: int| 0 <= i < front.len() && (#[trigger] front[i]).0 == key;
                        assert(entries[i].0 == key);
                    }
                }
                if holds_key(front, key) {
                    let i = choose|i: int| 0 <= i < front.len() && (#[trigger] front[i]).0 == key;
                    lemma_lookup_at(front, i);
                    assert(entries[i] == front[i]);
                    lemma_lookup_at(entries, i);
                }
                assert(holds_key(part, key) == holds_key(inner, key)) by {
                    if holds_key(part, key) {
                        let i = choose|i: int| 0 <= i < part.len() && (#[trigger] part[i]).0 == key;
                        assert(inner[i].0 == key);
                    }
                    if holds_key(inner, key) {
                        let i = choose|i: int| 0 <= i < inner.len() && (#[trigger] inner[i]).0 == key;
                        assert(part[i].0 == key);
                    }
                }
                if holds_key(inner, key) {
                    let i = choose|i: int| 0 <= i < inner.len() && (#[trigger] inner[i]).0 == key;
                    lemma_lookup_at(inner, i);
                    assert(part[i] == inner[i]);
                    lemma_lookup_at(part, i);
                }
            }
        }
    }
}

/// Of every layer the entries in `[lo, hi]`.
pub open spec fn ranged(layers: Seq<Seq<Entry>>, lo: Key, hi: Key) -> Seq<Seq<Entry>> {
    Seq::new(layers.len(), |i: int| in_range(layers[i], lo, hi))
}

/// Among the entries of the layers that lie in an interval, a key in the
/// interval has the value that it has among all entries.
pub proof fn lemma_newest_ranged(layers: Seq<Seq<Entry>>, lo: Key, hi: Key, key: Key)
    requires
        all_ascending(layers),
    ensures
        all_ascending(ranged(layers, lo, hi)),
        newest_value(ranged(layers, lo, hi), key) == if lo <= key <= hi {
            newest_value(layers, key)
        } else {
            None
        },
    decreases layers.len(),
{
    let cut = ranged(layers, lo, hi);
    assert forall|r: int| 0 <= r < cut.len() implies strictly_ascending(#[trigger] cut[r]) by {
        assert(strictly_ascending(layers[r]));
        lemma_in_range(layers[r], lo, hi);
    }
    if layers.len() > 0 {
        let front = layers.drop_last();
        assert forall|r: int| 0 <= r < front.len() implies strictly_ascending(#[trigger] front[r]) by {
            assert(front[r] == layers[r]);
        }
        lemma_newest_ranged(front, lo, hi, key);
        assert(cut.drop_last() =~= ranged(front, lo, hi));
        assert(cut.last() == in_range(layers.last(), lo, hi));
        assert(strictly_ascending(layers[layers.len() - 1]));
        lemma_in_range(layers.last(), lo, hi);
        let shown = lookup(in_range(layers.last(), lo, hi), key);
    }
}

/// Layers that show the same show the same under the same younger layers.
pub proof fn lemma_visible_append(
    one: Seq<Seq<Entry>>,
    other: Seq<Seq<Entry>>,
    younger: Seq<Seq<Entry>>,
    key: Key,
)
    requires
        visible(one, key) == visible(other, key),
    ensures
        visible(one + younger, key) == visible(other + younger, key),
{
    lemma_newest_concat(one, younger, key);
    lemma_newest_concat(other, younger, key);
}

/// What a level shows after its runs were replaced by their merge: of
/// every key the value that the runs gave it, unless the merge discarded
/// it.
pub open spec fn merged_level(
    before: Seq<Seq<Entry>>,
    after: Seq<Seq<Entry>>,
    discard_tombstones: bool,
) -> bool {
    forall|key: Key| #[trigger]
        newest_value(after, key) == match newest_value(before, key) {
            Some(value) => if kept(value, discard_tombstones) {
                Some(value)
            } else {
                None
            },
            None => None,
        }
}

/// The layers of the levels from `from_level` on, where level `level` was
/// merged and the other levels are as they were, show what they showed.
/// Tombstones may be discarded at the last level only.
pub proof fn lemma_replace_level(
    files: Map<Seq<char>, Seq<u8>>,
    after: Map<Seq<char>, Seq<u8>>,
    db_name: Seq<char>,
    counts: Seq<Seq<Size>>,
    after_counts: Seq<Seq<Size>>,
    level: Level,
    discard_tombstones: bool,
    from_level: int,
    key: Key,
)
    requires
        countable(counts),
        level < counts.len(),
        0 <= from_level <= level,
        after_counts.len() == counts.len(),
        forall|l: int| 0 <= l < counts.len() && l != level ==> after_counts[l] == counts[l],
        same_runs(files, after, db_name, counts, 0, level as int),
        same_runs(files, after, db_name, counts, level + 1, counts.len() as int),
        merged_level(
            level_runs(files, db_name, level, counts[level as int].len()),
            level_runs(after, db_name, level, after_counts[level as int].len()),
            discard_tombstones,
        ),
        discard_tombstones ==> level == counts.len() - 1,
    ensures
        visible(disk_layers(after, db_name, after_counts, from_level), key) == visible(
            disk_layers(files, db_name, counts, from_level),
            key,
        ),
    decreases level - from_level,
{
    if from_level == level {
        let deeper = disk_layers(files, db_name, counts, level + 1);
        let before_runs = level_runs(files, db_name, level, counts[level as int].len());
        let after_runs = level_runs(after, db_name, level, after_counts[level as int].len());
        lemma_disk_layers_frame(files, after, db_name, counts, after_counts, level + 1);
        lemma_newest_concat(deeper, before_runs, key);
        lemma_newest_concat(deeper, after_runs, key);
        let shown = newest_value(after_runs, key);
        if discard_tombstones {
            assert(deeper =~= Seq::<Seq<Entry>>::empty());
        }
    } else {
        lemma_replace_level(
            files,
            after,
            db_name,
            counts,
            after_counts,
            level,
            discard_tombstones,
            from_level + 1,
            key,
        );
        assert forall|run: int| 0 <= run < counts[from_level].len() implies after[#[trigger] filename::spec_sst_path(
            db_name,
            from_level as usize,
            run as usize,
        )] == files[filename::spec_sst_path(db_name, from_level as usize, run as usize)] by {
            let l = from_level as usize;
            let r = run as usize;
            assert(after[filename::spec_sst_path(db_name, l, r)] == files[filename::spec_sst_path(
                db_name,
                l,
                r,
            )]);
        }
        lemma_level_runs_frame(files, after, db_name, from_level as usize, counts[from_level].len());
        lemma_visible_append(
            disk_layers(after, db_name, after_counts, from_level + 1),
            disk_layers(files, db_name, counts, from_level + 1),
            level_runs(files, db_name, from_level as usize, counts[from_level].len()),
            key,
        );
    }
}

/// The runs of a merged level show what the merge holds.
pub proof fn lemma_merge_shows(
    runs: Seq<Seq<Entry>>,
    result: Seq<Entry>,
    discard_tombstones: bool,
    key: Key,
)
    requires
        is_merge(runs, discard_tombstones, result),
    ensures
        lookup(result, key) == match newest_value(runs, key) {
            Some(value) => if kept(value, discard_tombstones) {
                Some(value)
            } else {
                None
            },
            None => None,
        },
{
    if holds_key(result, key) {
        let i = choose|i: int| 0 <= i < result.len() && (#[trigger] result[i]).0 == key;
        lemma_lookup_at(result, i);
        assert(result.contains((key, result[i].1)));
    } else {
        match newest_value(runs, key) {
            Some(value) => {
                if kept(value, discard_tombstones) {
                    assert(result.contains((key, value)));
                    let i = choose|i: int| 0 <= i < result.len() && result[i] == (key, value);
                    assert(result[i].0 == key);
                }
            },
            None => {},
        }
    }
}

/// The layers of the levels from `from_level` on are the same where the
/// layers from `level` on are, and the levels before `level` are as they
/// were.
pub proof fn lemma_disk_layers_above(
    files: Map<Seq<char>, Seq<u8>>,
    after: Map<Seq<char>, Seq<u8>>,
    db_name: Seq<char>,
    counts: Seq<Seq<Size>>,
    after_counts: Seq<Seq<Size>>,
    level: int,
    from_level: int,
)
    requires
        countable(counts),
        0 <= from_level <= level,
        level <= counts.len(),
        level <= after_counts.len(),
        forall|l: int| 0 <= l < level ==> after_counts[l] == counts[l],
        same_runs(files, after, db_name, counts, 0, level),
        disk_layers(after, db_name, after_counts, level) == disk_layers(files, db_name, counts, level),
    ensures
        disk_layers(after, db_name, after_counts, from_level) == disk_layers(
            files,
            db_name,
            counts,
            from_level,
        ),
    decreases level - from_level,
{
    if from_level < level {
        lemma_disk_layers_above(files, after, db_name, counts, after_counts, level, from_level + 1);
        assert forall|run: int| 0 <= run < counts[from_level].len() implies after[#[trigger] filename::spec_sst_path(
            db_name,
            from_level as usize,
            run as usize,
        )] == files[filename::spec_sst_path(db_name, from_level as usize, run as usize)] by {
            let l = from_level as usize;
            let r = run as usize;
            assert(after[filename::spec_sst_path(db_name, l, r)] == files[filename::spec_sst_path(
                db_name,
                l,
                r,
            )]);
        }
        lemma_level_runs_frame(files, after, db_name, from_level as usize, counts[from_level].len());
    }
}

/// Moving the runs of a level behind the runs of the next level, in their
/// order, leaves the layers as they were.
pub proof fn lemma_move_level(
    files: Map<Seq<char>, Seq<u8>>,
    after: Map<Seq<char>, Seq<u8>>,
    db_name: Seq<char>,
    counts: Seq<Seq<Size>>,
    after_counts: Seq<Seq<Size>>,
    level: Level,
)
    requires
        countable(counts),
        countable(after_counts),
        level < counts.len(),
        level + 1 < after_counts.len(),
        after_counts.len() == if level + 1 < counts.len() {
            counts.len()
        } else {
            counts.len() + 1
        },
        forall|l: int|
            0 <= l < counts.len() && l != level && l != level + 1 ==> after_counts[l] == counts[l],
        after_counts[level as int] == Seq::<Size>::empty(),
        after_counts[level + 1] == (if level + 1 < counts.len() {
            counts[level + 1]
        } else {
            Seq::<Size>::empty()
        }) + counts[level as int],
        same_runs(files, after, db_name, counts, 0, level as int),
        same_runs(files, after, db_name, counts, level + 1, counts.len() as int),
        forall|run: usize|
            run < counts[level as int].len() ==> after[#[trigger] filename::spec_sst_path(
                db_name,
                (level + 1) as usize,
                (after_counts[level + 1].len() - counts[level as int].len() + run) as usize,
            )] == files[filename::spec_sst_path(db_name, level, run)],
    ensures
        disk_layers(after, db_name, after_counts, 0) == disk_layers(files, db_name, counts, 0),
{
    let next = (level + 1) as usize;
    let moved = counts[level as int].len();
    let there = after_counts[level + 1].len() - moved;
    // The levels below the two are as they were.
    if level + 2 <= counts.len() {
        assert(same_runs(files, after, db_name, counts, level + 2, counts.len() as int));
        lemma_disk_layers_frame(files, after, db_name, counts, after_counts, level + 2);
    } else {
        assert(disk_layers(files, db_name, counts, level + 2) =~= Seq::<Seq<Entry>>::empty());
        assert(disk_layers(after, db_name, after_counts, level + 2) =~= Seq::<Seq<Entry>>::empty());
    }
    let deeper = disk_layers(files, db_name, counts, level + 2);
    let old_next = if level + 1 < counts.len() {
        level_runs(files, db_name, next, counts[level + 1].len())
    } else {
        Seq::<Seq<Entry>>::empty()
    };
    let old_here = level_runs(files, db_name, level, moved);
    let new_next = level_runs(after, db_name, next, after_counts[level + 1].len());
    assert(new_next =~= old_next + old_here) by {
        assert forall|i: int| 0 <= i < new_next.len() implies new_next[i] == (old_next + old_here)[i] by {
            if i < there {
                let r = i as usize;
                assert(after[filename::spec_sst_path(db_name, next, r)] == files[filename::spec_sst_path(
                    db_name,
                    next,
                    r,
                )]);
            } else {
                let r = (i - there) as usize;
                assert(after[filename::spec_sst_path(db_name, next, (there + r) as usize)]
                    == files[filename::spec_sst_path(db_name, level, r)]);
            }
        }
    }
    assert(level_runs(after, db_name, level, 0) =~= Seq::<Seq<Entry>>::empty());
    let after_next = disk_layers(after, db_name, after_counts, level + 1);
    assert(after_next == disk_layers(after, db_name, after_counts, level + 2) + new_next);
    assert(disk_layers(after, db_name, after_counts, level as int) == after_next + level_runs(
        after,
        db_name,
        level,
        after_counts[level as int].len(),
    ));
    assert(disk_layers(after, db_name, after_counts, level as int) =~= deeper + old_next + old_here);
    assert(disk_layers(files, db_name, counts, level as int) == disk_layers(
        files,
        db_name,
        counts,
        level + 1,
    ) + old_here);
    if level + 1 < counts.len() {
        assert(disk_layers(files, db_name, counts, level + 1) == deeper + old_next);
        assert(disk_layers(files, db_name, counts, level as int) =~= deeper + old_next + old_here);
    } else {
        assert(disk_layers(files, db_name, counts, level + 1) =~= Seq::<Seq<Entry>>::empty());
        assert(disk_layers(files, db_name, counts, level as int) =~= deeper + old_next + old_here);
    }
    lemma_disk_layers_above(files, after, db_name, counts, after_counts, level as int, 0);
}

/// A path that is no file of entries of the first `count` runs of a level.
pub open spec fn no_run_of(db_name: Seq<char>, level: Level, count: nat, path: Seq<char>) -> bool {
    forall|run: usize| run < count ==> path != #[trigger] filename::spec_sst_path(db_name, level, run)
}

/// A path that is no index of the first `count` runs of a level.
pub open spec fn no_index_of(db_name: Seq<char>, level: Level, count: nat, path: Seq<char>) -> bool {
    forall|run: usize|
        run < count ==> path != #[trigger] filename::spec_sst_btree_path(db_name, level, run)
}

/// Deleting the runs of a level leaves every other file as it was, and
/// none of the runs.
pub proof fn lemma_without_runs_at(
    files: Map<Seq<char>, Seq<u8>>,
    db_name: Seq<char>,
    level: Level,
    count: nat,
    path: Seq<char>,
)
    requires
        count <= usize::MAX,
    ensures
        no_run_of(db_name, level, count, path) ==> without_runs(
            files,
            db_name,
            level,
            count,
        ).contains_key(path) == files.contains_key(path) && without_runs(
            files,
            db_name,
            level,
            count,
        )[path] == files[path],
        !no_run_of(db_name, level, count, path) ==> !without_runs(
            files,
            db_name,
            level,
            count,
        ).contains_key(path),
    decreases count,
{
    if count > 0 {
        lemma_without_runs_at(files, db_name, level, (count - 1) as nat, path);
        let last = (count - 1) as usize;
        if no_run_of(db_name, level, count, path) {
            assert(path != filename::spec_sst_path(db_name, level, last));
            assert(no_run_of(db_name, level, (count - 1) as nat, path));
        } else {
            let run = choose|run: usize|
                run < count && path == #[trigger] filename::spec_sst_path(db_name, level, run);
            if run != last {
                assert(!no_run_of(db_name, level, (count - 1) as nat, path));
            }
        }
    }
}

/// Deleting the indexes of the runs of a level leaves every other file as
/// it was.
pub proof fn lemma_without_indexes_at(
    files: Map<Seq<char>, Seq<u8>>,
    db_name: Seq<char>,
    level: Level,
    count: nat,
    path: Seq<char>,
)
    requires
        count <= usize::MAX,
        no_index_of(db_name, level, count, path),
    ensures
        without_indexes(files, db_name, level, count).contains_key(path) == files.contains_key(path),
        without_indexes(files, db_name, level, count)[path] == files[path],
    decreases count,
{
    if count > 0 {
        let last = (count - 1) as usize;
        assert(path != filename::spec_sst_btree_path(db_name, level, last));
        assert(no_index_of(db_name, level, (count - 1) as nat, path));
        lemma_without_indexes_at(files, db_name, level, (count - 1) as nat, path);
    }
}

/// What compacting a level leaves of the files: run 0 of the level holds
/// the merge, where that is not empty, and the files of entries and the
/// Bloom filters of the runs of other levels are as they were, as are the
/// Bloom filters of the level itself.
pub open spec fn compaction_outcome(
    files: Map<Seq<char>, Seq<u8>>,
    after: Map<Seq<char>, Seq<u8>>,
    db_name: Seq<char>,
    level: Level,
    result: Seq<Entry>,
) -> bool {
    &&& after.contains_key(filename::spec_sst_path(db_name, level, 0)) == (result.len() > 0)
    &&& result.len() > 0 ==> after[filename::spec_sst_path(db_name, level, 0)] == entries_bytes(
        result,
    )
    &&& forall|other_level: usize, run: usize|
        other_level != level ==> after.contains_key(
            #[trigger] filename::spec_sst_path(db_name, other_level, run),
        ) == files.contains_key(filename::spec_sst_path(db_name, other_level, run))
            && after[filename::spec_sst_path(db_name, other_level, run)]
            == files[filename::spec_sst_path(db_name, other_level, run)]
    &&& forall|other_level: usize, run: usize|
        after.contains_key(#[trigger] filename::spec_bloom_filter_path(db_name, other_level, run))
            == files.contains_key(filename::spec_bloom_filter_path(db_name, other_level, run))
            && after[filename::spec_bloom_filter_path(db_name, other_level, run)]
            == files[filename::spec_bloom_filter_path(db_name, other_level, run)]
}

/// The files that a compaction leaves are as `compaction_outcome` says,
/// with or without indexes.
pub proof fn lemma_compaction_outcome(
    files: Map<Seq<char>, Seq<u8>>,
    db_name: Seq<char>,
    level: Level,
    count: nat,
    result: Seq<Entry>,
    page_size: usize,
)
    requires
        2 <= count <= usize::MAX,
    ensures
        compaction_outcome(
            files,
            compacted_files(files, db_name, level, count, result),
            db_name,
            level,
            result,
        ),
        compaction_outcome(
            files,
            compacted_with_index(files, db_name, level, count, result, page_size),
            db_name,
            level,
            result,
        ),
{
    let plain = compacted_files(files, db_name, level, count, result);
    let indexed = compacted_with_index(files, db_name, level, count, result, page_size);
    let scratch = filename::spec_sst_compaction_path(db_name, level);
    let first = filename::spec_sst_path(db_name, level, 0);
    filename::lemma_paths_are_run_paths(db_name, level, 0);
    filename::lemma_compaction_path_is_no_run_file(db_name, level, level, 0, "sst"@);
    lemma_run_files_apart(db_name, level, 0);
    lemma_without_runs_at(files, db_name, level, count, first);
    assert(!no_run_of(db_name, level, count, first)) by {
        let zero = 0usize;
        assert(first == filename::spec_sst_path(db_name, level, zero));
    }
    // No index of the level is a file of entries.
    assert(no_index_of(db_name, level, count, first)) by {
        assert forall|run: usize| run < count implies first != #[trigger] filename::spec_sst_btree_path(
            db_name,
            level,
            run,
        ) by {
            filename::lemma_btree_path_is_no_run(db_name, level, run, 0);
        }
    }
    lemma_without_indexes_at(plain, db_name, level, count, first);
    assert forall|other_level: usize, run: usize| other_level != level implies plain.contains_key(
        #[trigger] filename::spec_sst_path(db_name, other_level, run),
    ) == files.contains_key(filename::spec_sst_path(db_name, other_level, run))
        && plain[filename::spec_sst_path(db_name, other_level, run)]
        == files[filename::spec_sst_path(db_name, other_level, run)]
        && indexed.contains_key(filename::spec_sst_path(db_name, other_level, run))
        == files.contains_key(filename::spec_sst_path(db_name, other_level, run))
        && indexed[filename::spec_sst_path(db_name, other_level, run)]
        == files[filename::spec_sst_path(db_name, other_level, run)] by {
        let path = filename::spec_sst_path(db_name, other_level, run);
        lemma_other_path(db_name, level, count, other_level, run, path);
        lemma_without_runs_at(files, db_name, level, count, path);
        lemma_without_indexes_at(plain, db_name, level, count, path);
        lemma_runs_apart(db_name, level, 0, other_level, run);
    }
    assert forall|other_level: usize, run: usize|
        plain.contains_key(#[trigger] filename::spec_bloom_filter_path(db_name, other_level, run))
            == files.contains_key(filename::spec_bloom_filter_path(db_name, other_level, run))
            && plain[filename::spec_bloom_filter_path(db_name, other_level, run)]
            == files[filename::spec_bloom_filter_path(db_name, other_level, run)]
            && indexed.contains_key(filename::spec_bloom_filter_path(db_name, other_level, run))
            == files.contains_key(filename::spec_bloom_filter_path(db_name, other_level, run))
            && indexed[filename::spec_bloom_filter_path(db_name, other_level, run)]
            == files[filename::spec_bloom_filter_path(db_name, other_level, run)] by {
        let path = filename::spec_bloom_filter_path(db_name, other_level, run);
        lemma_other_path(db_name, level, count, other_level, run, path);
        lemma_without_runs_at(files, db_name, level, count, path);
        lemma_without_indexes_at(plain, db_name, level, count, path);
        if other_level == level && run == 0 {
        } else {
            lemma_runs_apart(db_name, level, 0, other_level, run);
        }
    }
}

/// The files of entries of the runs of other levels, and the Bloom filters
/// of all runs, are no files of entries and no indexes of a level, and not
/// its scratch file.
pub proof fn lemma_other_path(
    db_name: Seq<char>,
    level: Level,
    count: nat,
    other_level: Level,
    run: Run,
    path: Seq<char>,
)
    requires
        (other_level != level && path == filename::spec_sst_path(db_name, other_level, run)) || path
            == filename::spec_bloom_filter_path(db_name, other_level, run),
    ensures
        no_run_of(db_name, level, count, path),
        no_index_of(db_name, level, count, path),
        path != filename::spec_sst_compaction_path(db_name, level),
{
    filename::lemma_paths_are_run_paths(db_name, other_level, run);
    filename::lemma_compaction_path_is_no_run_file(db_name, level, other_level, run, "sst"@);
    filename::lemma_compaction_path_is_no_run_file(db_name, level, other_level, run, "bloom"@);
    assert forall|q: usize| q < count implies path != #[trigger] filename::spec_sst_path(
        db_name,
        level,
        q,
    ) by {
        if other_level == level && q == run {
            lemma_run_files_apart(db_name, level, q);
        } else {
            lemma_runs_apart(db_name, level, q, other_level, run);
        }
    }
    assert forall|q: usize| q < count implies path != #[trigger] filename::spec_sst_btree_path(
        db_name,
        level,
        q,
    ) by {
        if other_level == level && q == run {
            lemma_run_files_apart(db_name, level, q);
        } else {
            lemma_runs_apart(db_name, level, q, other_level, run);
        }
    }
}

/// The files that are left when the Bloom filters of runs `0` to
/// `count - 1` of a level are deleted.
pub open spec fn without_blooms(
    files: Map<Seq<char>, Seq<u8>>,
    db_name: Seq<char>,
    level: Level,
    count: nat,
) -> Map<Seq<char>, Seq<u8>>
    decreases count,
{
    if count == 0 {
        files
    } else {
        without_blooms(files, db_name, level, (count - 1) as nat).remove(
            filename::spec_bloom_filter_path(db_name, level, (count - 1) as usize),
        )
    }
}

/// A path that is no Bloom filter of the first `count` runs of a level.
pub open spec fn no_bloom_of(db_name: Seq<char>, level: Level, count: nat, path: Seq<char>) -> bool {
    forall|run: usize|
        run < count ==> path != #[trigger] filename::spec_bloom_filter_path(db_name, level, run)
}

/// Deleting the Bloom filters of the runs of a level leaves every other
/// file as it was, and none of the filters.
pub proof fn lemma_without_blooms_at(
    files: Map<Seq<char>, Seq<u8>>,
    db_name: Seq<char>,
    level: Level,
    count: nat,
    path: Seq<char>,
)
    requires
        count <= usize::MAX,
    ensures
        no_bloom_of(db_name, level, count, path) ==> without_blooms(
            files,
            db_name,
            level,
            count,
        ).contains_key(path) == files.contains_key(path) && without_blooms(
            files,
            db_name,
            level,
            count,
        )[path] == files[path],
        !no_bloom_of(db_name, level, count, path) ==> !without_blooms(
            files,
            db_name,
            level,
            count,
        ).contains_key(path),
    decreases count,
{
    if count > 0 {
        lemma_without_blooms_at(files, db_name, level, (count - 1) as nat, path);
        let last = (count - 1) as usize;
        if no_bloom_of(db_name, level, count, path) {
            assert(path != filename::spec_bloom_filter_path(db_name, level, last));
            assert(no_bloom_of(db_name, level, (count - 1) as nat, path));
        } else {
            let run = choose|run: usize|
                run < count && path == #[trigger] filename::spec_bloom_filter_path(db_name, level, run);
            if run != last {
                assert(!no_bloom_of(db_name, level, (count - 1) as nat, path));
            }
        }
    }
}

/// What is left of a level after its runs were merged into `result`: the
/// database is sound, and it shows what it showed.
pub proof fn lemma_compacted_sound(
    files: Map<Seq<char>, Seq<u8>>,
    after: Map<Seq<char>, Seq<u8>>,
    db_name: Seq<char>,
    counts: Seq<Seq<Size>>,
    after_counts: Seq<Seq<Size>>,
    level: Level,
    result: Seq<Entry>,
    discard_tombstones: bool,
    bits_per_entry: Size,
)
    requires
        countable(counts),
        runs_sound(files, db_name, counts),
        blooms_sound(files, db_name, counts, bits_per_entry),
        level < counts.len(),
        after_counts.len() == counts.len(),
        forall|l: int| 0 <= l < counts.len() && l != level ==> after_counts[l] == counts[l],
        result.len() <= usize::MAX,
        strictly_ascending(result),
        forall|other_level: usize, run: usize|
            other_level != level ==> after.contains_key(
                #[trigger] filename::spec_sst_path(db_name, other_level, run),
            ) == files.contains_key(filename::spec_sst_path(db_name, other_level, run))
                && after[filename::spec_sst_path(db_name, other_level, run)]
                == files[filename::spec_sst_path(db_name, other_level, run)],
        forall|other_level: usize, run: usize|
            other_level != level ==> after.contains_key(
                #[trigger] filename::spec_bloom_filter_path(db_name, other_level, run),
            ) == files.contains_key(filename::spec_bloom_filter_path(db_name, other_level, run))
                && after[filename::spec_bloom_filter_path(db_name, other_level, run)]
                == files[filename::spec_bloom_filter_path(db_name, other_level, run)],
        after_counts[level as int] == if result.len() == 0 {
            Seq::<Size>::empty()
        } else {
            seq![result.len() as usize]
        },
        result.len() > 0 ==> after.contains_key(filename::spec_sst_path(db_name, level, 0))
            && after[filename::spec_sst_path(db_name, level, 0)] == entries_bytes(result) && (
        after.contains_key(filename::spec_bloom_filter_path(db_name, level, 0)) ==> bloom_covers(
            after[filename::spec_bloom_filter_path(db_name, level, 0)],
            bits_per_entry,
            result,
        )),
        forall|key: Key| #[trigger]
            lookup(result, key) == match newest_value(
                level_runs(files, db_name, level, counts[level as int].len()),
                key,
            ) {
                Some(value) => if kept(value, discard_tombstones) {
                    Some(value)
                } else {
                    None
                },
                None => None,
            },
        discard_tombstones ==> level == counts.len() - 1,
    ensures
        countable(after_counts),
        runs_sound(after, db_name, after_counts),
        blooms_sound(after, db_name, after_counts, bits_per_entry),
        forall|key: Key, memtable: Seq<Entry>| #[trigger]
            visible(disk_layers(after, db_name, after_counts, 0).push(memtable), key) == visible(
                disk_layers(files, db_name, counts, 0).push(memtable),
                key,
            ),
{
    crate::serde_entry::lemma_serde_round_trip(result);
    assert forall|l: usize, run: usize|
        l < after_counts.len() && run < after_counts[l as int].len() implies #[trigger] run_ok(
        after,
        db_name,
        l,
        run,
        after_counts[l as int][run as int],
    ) by {
        if l != level {
            assert(run_ok(files, db_name, l, run, counts[l as int][run as int]));
            assert(after.contains_key(filename::spec_sst_path(db_name, l, run)));
        }
    }
    assert forall|l: usize, run: usize|
        l < after_counts.len() && run < after_counts[l as int].len() && after.contains_key(
            #[trigger] filename::spec_bloom_filter_path(db_name, l, run),
        ) implies bloom_covers(
        after[filename::spec_bloom_filter_path(db_name, l, run)],
        bits_per_entry,
        entries_from_bytes(after[filename::spec_sst_path(db_name, l, run)]),
    ) by {
        if l != level {
            assert(files.contains_key(filename::spec_bloom_filter_path(db_name, l, run)));
            assert(after[filename::spec_sst_path(db_name, l, run)] == files[filename::spec_sst_path(
                db_name,
                l,
                run,
            )]);
        }
    }
    assert(countable(after_counts)) by {
        assert forall|l: int| 0 <= l < after_counts.len() implies (#[trigger] after_counts[l]).len()
            <= usize::MAX by {
            if l != level {
                assert(after_counts[l] == counts[l]);
            }
        }
    }
    let before_runs = level_runs(files, db_name, level, counts[level as int].len());
    let after_runs = level_runs(after, db_name, level, after_counts[level as int].len());
    assert(merged_level(before_runs, after_runs, discard_tombstones)) by {
        assert forall|key: Key| #[trigger]
            newest_value(after_runs, key) == match newest_value(before_runs, key) {
                Some(value) => if kept(value, discard_tombstones) {
                    Some(value)
                } else {
                    None
                },
                None => None,
            } by {
            let shown = lookup(result, key);
            reveal_with_fuel(newest_value, 3);
            if result.len() == 0 {
                assert(after_runs =~= Seq::<Seq<Entry>>::empty());
                assert(!holds_key(result, key));
            } else {
                assert(after_runs =~= seq![result]);
                assert(after_runs.last() == result);
                assert(after_runs.drop_last() =~= Seq::<Seq<Entry>>::empty());
            }
        }
    }
    assert(same_runs(files, after, db_name, counts, 0, level as int));
    assert(same_runs(files, after, db_name, counts, level + 1, counts.len() as int));
    assert forall|key: Key, memtable: Seq<Entry>| #[trigger]
        visible(disk_layers(after, db_name, after_counts, 0).push(memtable), key) == visible(
            disk_layers(files, db_name, counts, 0).push(memtable),
            key,
        ) by {
        lemma_replace_level(
            files,
            after,
            db_name,
            counts,
            after_counts,
            level,
            discard_tombstones,
            0,
            key,
        );
        let one = disk_layers(after, db_name, after_counts, 0);
        let other = disk_layers(files, db_name, counts, 0);
        lemma_visible_append(one, other, seq![memtable], key);
        assert(one + seq![memtable] =~= one.push(memtable));
        assert(other + seq![memtable] =~= other.push(memtable));
    }
}

/// What is left after the runs of a level were moved behind the runs of
/// the next level: the database is sound, and its layers are as they were.
pub proof fn lemma_moved_sound(
    files: Map<Seq<char>, Seq<u8>>,
    after: Map<Seq<char>, Seq<u8>>,
    db_name: Seq<char>,
    counts: Seq<Seq<Size>>,
    after_counts: Seq<Seq<Size>>,
    level: Level,
    bits_per_entry: Size,
)
    requires
        countable(counts),
        countable(after_counts),
        runs_sound(files, db_name, counts),
        blooms_sound(files, db_name, counts, bits_per_entry),
        level < counts.len(),
        level + 1 < after_counts.len(),
        after_counts.len() == if level + 1 < counts.len() {
            counts.len()
        } else {
            counts.len() + 1
        },
        forall|l: int|
            0 <= l < counts.len() && l != level && l != level + 1 ==> after_counts[l] == counts[l],
        after_counts[level as int] == Seq::<Size>::empty(),
        after_counts[level + 1] == (if level + 1 < counts.len() {
            counts[level + 1]
        } else {
            Seq::<Size>::empty()
        }) + counts[level as int],
        forall|run: usize|
            run < counts[level as int].len() ==> after.contains_key(
                #[trigger] filename::spec_sst_path(
                    db_name,
                    (level + 1) as usize,
                    (after_counts[level + 1].len() - counts[level as int].len() + run) as usize,
                ),
            ) && after[filename::spec_sst_path(
                db_name,
                (level + 1) as usize,
                (after_counts[level + 1].len() - counts[level as int].len() + run) as usize,
            )] == files[filename::spec_sst_path(db_name, level, run)],
        forall|run: usize|
            run < counts[level as int].len() && after.contains_key(
                #[trigger] filename::spec_bloom_filter_path(
                    db_name,
                    (level + 1) as usize,
                    (after_counts[level + 1].len() - counts[level as int].len() + run) as usize,
                ),
            ) ==> files.contains_key(filename::spec_bloom_filter_path(db_name, level, run))
                && after[filename::spec_bloom_filter_path(
                db_name,
                (level + 1) as usize,
                (after_counts[level + 1].len() - counts[level as int].len() + run) as usize,
            )] == files[filename::spec_bloom_filter_path(db_name, level, run)],
        forall|l: usize, run: usize|
            l < counts.len() && l != level && run < counts[l as int].len() ==> after.contains_key(
                #[trigger] filename::spec_sst_path(db_name, l, run),
            ) == files.contains_key(filename::spec_sst_path(db_name, l, run))
                && after[filename::spec_sst_path(db_name, l, run)] == files[filename::spec_sst_path(
                db_name,
                l,
                run,
            )],
        forall|l: usize, run: usize|
            l < counts.len() && l != level && run < counts[l as int].len() ==> after.contains_key(
                #[trigger] filename::spec_bloom_filter_path(db_name, l, run),
            ) == files.contains_key(filename::spec_bloom_filter_path(db_name, l, run))
                && after[filename::spec_bloom_filter_path(db_name, l, run)]
                == files[filename::spec_bloom_filter_path(db_name, l, run)],
    ensures
        runs_sound(after, db_name, after_counts),
        blooms_sound(after, db_name, after_counts, bits_per_entry),
        disk_layers(after, db_name, after_counts, 0) == disk_layers(files, db_name, counts, 0),
{
    let next = (level + 1) as usize;
    let moved = counts[level as int].len();
    let there = (after_counts[level + 1].len() - moved) as usize;
    assert forall|l: usize, run: usize|
        l < after_counts.len() && run < after_counts[l as int].len() implies #[trigger] run_ok(
        after,
        db_name,
        l,
        run,
        after_counts[l as int][run as int],
    ) by {
        if l == next {
            if run < there {
                assert(run_ok(files, db_name, l, run, counts[l as int][run as int]));
                assert(after.contains_key(filename::spec_sst_path(db_name, l, run)));
            } else {
                let from = (run - there) as usize;
                assert(run_ok(files, db_name, level, from, counts[level as int][from as int]));
                assert(after.contains_key(
                    filename::spec_sst_path(db_name, next, (there + from) as usize),
                ));
            }
        } else {
            assert(run_ok(files, db_name, l, run, counts[l as int][run as int]));
            assert(after.contains_key(filename::spec_sst_path(db_name, l, run)));
        }
    }
    assert forall|l: usize, run: usize|
        l < after_counts.len() && run < after_counts[l as int].len() && after.contains_key(
            #[trigger] filename::spec_bloom_filter_path(db_name, l, run),
        ) implies bloom_covers(
        after[filename::spec_bloom_filter_path(db_name, l, run)],
        bits_per_entry,
        entries_from_bytes(after[filename::spec_sst_path(db_name, l, run)]),
    ) by {
        if l == next {
            if run < there {
                assert(files.contains_key(filename::spec_bloom_filter_path(db_name, l, run)));
                assert(after[filename::spec_sst_path(db_name, l, run)] == files[filename::spec_sst_path(
                    db_name,
                    l,
                    run,
                )]);
            } else {
                let from = (run - there) as usize;
                assert(after.contains_key(
                    filename::spec_bloom_filter_path(db_name, next, (there + from) as usize),
                ));
                assert(files.contains_key(filename::spec_bloom_filter_path(db_name, level, from)));
                assert(after[filename::spec_sst_path(db_name, next, (there + from) as usize)]
                    == files[filename::spec_sst_path(db_name, level, from)]);
            }
        } else {
            assert(files.contains_key(filename::spec_bloom_filter_path(db_name, l, run)));
            assert(after[filename::spec_sst_path(db_name, l, run)] == files[filename::spec_sst_path(
                db_name,
                l,
                run,
            )]);
        }
    }
    assert(same_runs(files, after, db_name, counts, 0, level as int));
    assert(same_runs(files, after, db_name, counts, level + 1, counts.len() as int));
    lemma_move_level(files, after, db_name, counts, after_counts, level);
}

/// Where the files of entries of all runs are as they were, and the Bloom
/// filters of one level were deleted or built anew, the database is sound
/// and its layers are as they were.
pub proof fn lemma_blooms_refreshed(
    files: Map<Seq<char>, Seq<u8>>,
    after: Map<Seq<char>, Seq<u8>>,
    db_name: Seq<char>,
    counts: Seq<Seq<Size>>,
    level: Level,
    bits_per_entry: Size,
)
    requires
        countable(counts),
        runs_sound(files, db_name, counts),
        blooms_sound(files, db_name, counts, bits_per_entry),
        forall|l: usize, run: usize|
            after.contains_key(#[trigger] filename::spec_sst_path(db_name, l, run))
                == files.contains_key(filename::spec_sst_path(db_name, l, run))
                && after[filename::spec_sst_path(db_name, l, run)] == files[filename::spec_sst_path(
                db_name,
                l,
                run,
            )],
        forall|l: usize, run: usize|
            l != level ==> after.contains_key(
                #[trigger] filename::spec_bloom_filter_path(db_name, l, run),
            ) == files.contains_key(filename::spec_bloom_filter_path(db_name, l, run))
                && after[filename::spec_bloom_filter_path(db_name, l, run)]
                == files[filename::spec_bloom_filter_path(db_name, l, run)],
        forall|run: usize|
            level < counts.len() && run < counts[level as int].len() && after.contains_key(
                #[trigger] filename::spec_bloom_filter_path(db_name, level, run),
            ) ==> bloom_covers(
                after[filename::spec_bloom_filter_path(db_name, level, run)],
                bits_per_entry,
                entries_from_bytes(after[filename::spec_sst_path(db_name, level, run)]),
            ),
    ensures
        runs_sound(after, db_name, counts),
        blooms_sound(after, db_name, counts, bits_per_entry),
        disk_layers(after, db_name, counts, 0) == disk_layers(files, db_name, counts, 0),
{
    assert forall|l: usize, run: usize|
        l < counts.len() && run < counts[l as int].len() implies #[trigger] run_ok(
        after,
        db_name,
        l,
        run,
        counts[l as int][run as int],
    ) by {
        assert(run_ok(files, db_name, l, run, counts[l as int][run as int]));
        assert(after.contains_key(filename::spec_sst_path(db_name, l, run)));
    }
    assert forall|l: usize, run: usize|
        l < counts.len() && run < counts[l as int].len() && after.contains_key(
            #[trigger] filename::spec_bloom_filter_path(db_name, l, run),
        ) implies bloom_covers(
        after[filename::spec_bloom_filter_path(db_name, l, run)],
        bits_per_entry,
        entries_from_bytes(after[filename::spec_sst_path(db_name, l, run)]),
    ) by {
        if l != level {
            assert(files.contains_key(filename::spec_bloom_filter_path(db_name, l, run)));
            assert(after[filename::spec_sst_path(db_name, l, run)] == files[filename::spec_sst_path(
                db_name,
                l,
                run,
            )]);
        }
    }
    assert(same_runs(files, after, db_name, counts, 0, counts.len() as int)) by {
        assert forall|l: usize, run: usize|
            l < counts.len() && run < counts[l as int].len() implies after[#[trigger] filename::spec_sst_path(
            db_name,
            l,
            run,
        )] == files[filename::spec_sst_path(db_name, l, run)] by {}
    }
    lemma_disk_layers_frame(files, after, db_name, counts, counts, 0);
}

/// No file of entries is a Bloom filter of a level.
pub proof fn lemma_sst_is_no_bloom(db_name: Seq<char>, level: Level, count: nat, other_level: Level, run: Run)
    ensures
        no_bloom_of(db_name, level, count, filename::spec_sst_path(db_name, other_level, run)),
{
    let path = filename::spec_sst_path(db_name, other_level, run);
    assert forall|q: usize| q < count implies path != #[trigger] filename::spec_bloom_filter_path(
        db_name,
        level,
        q,
    ) by {
        if other_level == level && q == run {
            lemma_run_files_apart(db_name, level, q);
        } else {
            lemma_runs_apart(db_name, other_level, run, level, q);
        }
    }
}

/// Knobs that a database can have: a memtable that is flushed at one entry
/// at least, and a buffer pool of one page and one bucket at least.
pub open spec fn valid_config(config: Config) -> bool {
    &&& config.memtable_capacity >= 1
    &&& config.buffer_pool_capacity >= 1
    &&& 1 <= config.buffer_pool_initial_size <= MAX_DIRECTORY_SIZE
}

/// Whether the keys of `entries` ascend strictly.
pub fn is_strictly_ascending(entries: &Vec<Entry>) -> (ascending: bool)
    ensures
        ascending == strictly_ascending(entries@),
{
    let mut i: usize = 1;
    while i < entries.len()
        invariant
            1 <= i,
            forall|x: int| 0 <= x < i - 1 && x + 1 < entries@.len() ==> (#[trigger] entries@[x]).0
                < entries@[x + 1].0,
        decreases entries@.len() - i,
    {
        if entries[i - 1].0 >= entries[i].0 {
            proof {
                if strictly_ascending(entries@) {
                    assert(entries@[i - 1].0 < entries@[i as int].0);
                }
            }
            return false;
        }
        i += 1;
    }
    proof {
        crate::algorithm::lemma_neighbours_ascending(entries@);
    }
    true
}

/// Whether two byte strings are the same.
pub fn same_bytes(a: &Vec<u8>, b: &Vec<u8>) -> (same: bool)
    ensures
        same == (a@ == b@),
{
    if a.len() != b.len() {
        return false;
    }
    let mut i: usize = 0;
    while i < a.len()
        invariant
            a@.len() == b@.len(),
            0 <= i <= a@.len(),
            forall|j: int| 0 <= j < i ==> a@[j] == b@[j],
        decreases a@.len() - i,
    {
        if a[i] != b[i] {
            return false;
        }
        i += 1;
    }
    assert(a@ =~= b@);
    true
}

/// Whether a run of `num_entries` entries fills level `level`: whether its
/// entries, divided by the entries of a run of the level before and
/// rounded up, reach the size ratio. A run of the level before holds
/// `memtable_capacity` times `size_ratio` to the power of `level - 1`
/// entries; where that is more than can be counted, no run fills the level.
pub open spec fn spec_fills_level(
    num_entries: Size,
    memtable_capacity: Size,
    size_ratio: Size,
    level: Level,
) -> bool {
    if size_ratio == 0 {
        level == 1 && memtable_capacity >= 1
    } else {
        let lower = memtable_capacity * vstd::arithmetic::power::pow(
            size_ratio as int,
            (level - 1) as nat,
        );
        1 <= lower <= usize::MAX && vstd::arithmetic::power::pow(
            size_ratio as int,
            (level - 1) as nat,
        ) <= usize::MAX && crate::sst_util::ceil_div(num_entries as int, lower) >= size_ratio
    }
}

/// Number of runs of the levels before `upto`.
pub open spec fn total_runs(counts: Seq<Seq<Size>>, upto: int) -> int
    decreases upto,
{
    if upto <= 0 {
        0
    } else {
        total_runs(counts, upto - 1) + counts[upto - 1].len()
    }
}

/// Whether `c` is white space, as Unicode defines it.
pub uninterp spec fn char_is_whitespace(c: char) -> bool;

/// Calls `char::is_whitespace`, which tells whether a character has the
/// Unicode property `White_Space`.
#[verifier::external_body]
fn is_whitespace(c: char) -> (white: bool)
    ensures
        white == char_is_whitespace(c),
{
    c.is_whitespace()
}

/// A name that a database can have: not empty, and without white space.
pub open spec fn valid_name(name: Seq<char>) -> bool {
    &&& name.len() > 0
    &&& forall|i: int| 0 <= i < name.len() ==> !char_is_whitespace(#[trigger] name[i])
}

/// Whether `name` can be the name of a database.
pub fn is_valid_name(name: &str) -> (valid: bool)
    ensures
        valid == valid_name(name@),
{
    let len: usize = name.unicode_len();
    if len == 0 {
        return false;
    }
    let mut i: usize = 0;
    while i < len
        invariant
            len == name@.len(),
            0 <= i <= len,
            forall|j: int| 0 <= j < i ==> !char_is_whitespace(#[trigger] name@[j]),
        decreases len - i,
    {
        if is_whitespace(name.get_char(i)) {
            return false;
        }
        i += 1;
    }
    true
}

/// Looks `key` up in one run, by the search that the database is set to.
pub fn run_get(
    storage: &mut Storage,
    db_name: &str,
    implementation: SstImplementation,
    algorithm: SstSearchAlgorithm,
    level: Level,
    run: Run,
    key: Key,
    num_entries: Size,
) -> (found: Result<Option<Value>, StoreError>)
    requires
        old(storage).wf(),
    ensures
        final(storage).wf(),
        final(storage).files() == old(storage).files(),
        final(storage).spec_page_size() == old(storage).spec_page_size(),
        final(storage).spec_use_pool() == old(storage).spec_use_pool(),
        final(storage).pool_capacity() == old(storage).pool_capacity(),
        run_ok(old(storage).files(), db_name@, level, run, num_entries) ==> found == Ok::<
            Option<Value>,
            StoreError,
        >(
            lookup(
                entries_from_bytes(old(storage).files()[filename::spec_sst_path(db_name@, level, run)]),
                key,
            ),
        ),
{
    match implementation {
        SstImplementation::Array => search_run(
            &array_sst::Sst,
            storage,
            db_name,
            algorithm,
            level,
            run,
            key,
            num_entries,
        ),
        SstImplementation::Btree => search_run(
            &btree_sst::Sst,
            storage,
            db_name,
            algorithm,
            level,
            run,
            key,
            num_entries,
        ),
    }
}

/// Scans one run for the keys in `key_range`, by the search that the
/// database is set to.
pub fn run_scan(
    storage: &mut Storage,
    db_name: &str,
    implementation: SstImplementation,
    algorithm: SstSearchAlgorithm,
    level: Level,
    run: Run,
    key_range: (Key, Key),
    num_entries: Size,
) -> (found: Result<Vec<Entry>, StoreError>)
    requires
        old(storage).wf(),
    ensures
        final(storage).wf(),
        final(storage).files() == old(storage).files(),
        final(storage).spec_page_size() == old(storage).spec_page_size(),
        final(storage).spec_use_pool() == old(storage).spec_use_pool(),
        final(storage).pool_capacity() == old(storage).pool_capacity(),
        run_ok(old(storage).files(), db_name@, level, run, num_entries) ==> found.is_ok()
            && found.unwrap()@ == in_range(
            entries_from_bytes(old(storage).files()[filename::spec_sst_path(db_name@, level, run)]),
            key_range.0,
            key_range.1,
        ),
{
    match implementation {
        SstImplementation::Array => scan_run(
            &array_sst::Sst,
            storage,
            db_name,
            algorithm,
            level,
            run,
            key_range,
            num_entries,
        ),
        SstImplementation::Btree => scan_run(
            &btree_sst::Sst,
            storage,
            db_name,
            algorithm,
            level,
            run,
            key_range,
            num_entries,
        ),
    }
}

/// Most levels that a database grows to: runs that reach the last level
/// stay there.
pub const MAX_LEVELS: usize = 64;

pub struct Database {
    name: String,
    config: Config,
    metadata: Metadata,
    memtable: Memtable,
    storage: Storage,
}

impl View for Database {
    type V = Map<Key, Value>;

    /// What a reader sees: the value of every key that was put and not
    /// deleted since.
    closed spec fn view(&self) -> Map<Key, Value> {
        Map::new(|key: Key| self.spec_get(key) is Some, |key: Key| self.spec_get(key).unwrap())
    }
}

impl Database {
    pub closed spec fn spec_name(&self) -> Seq<char> {
        self.name@
    }

    pub closed spec fn spec_config(&self) -> Config {
        self.config
    }

    /// The numbers of entries of the runs, by level.
    pub closed spec fn counts(&self) -> Seq<Seq<Size>> {
        counts_view(self.metadata.entry_counts@)
    }

    /// The files of the database.
    pub closed spec fn files(&self) -> Map<Seq<char>, Seq<u8>> {
        self.storage.files()
    }

    /// The entries of the memtable.
    pub closed spec fn memtable_entries(&self) -> Seq<Entry> {
        self.memtable@
    }

    pub closed spec fn spec_page_size(&self) -> usize {
        self.storage.spec_page_size()
    }

    /// The entries of the runs, by level and by run.
    pub open spec fn levels(&self) -> Seq<Seq<Seq<Entry>>> {
        level_contents(self.files(), self.spec_name(), self.counts())
    }

    /// The runs and the memtable, the oldest first.
    pub closed spec fn layers(&self) -> Seq<Seq<Entry>> {
        disk_layers(self.files(), self.spec_name(), self.counts(), 0).push(self.memtable@)
    }

    /// The value that a reader sees for `key`.
    pub closed spec fn spec_get(&self, key: Key) -> Option<Value> {
        visible(self.layers(), key)
    }

    /// Whether the database is closed: it has no name then.
    pub open spec fn spec_is_closed(&self) -> bool {
        self.spec_name().len() == 0
    }

    /// Number of frames that the buffer pool of the database may hold.
    pub closed spec fn pool_capacity(&self) -> Size {
        self.storage.pool_capacity()
    }

    /// Whether pages are read through the buffer pool.
    pub closed spec fn pool_enabled(&self) -> bool {
        self.storage.spec_use_pool()
    }

    /// The database is consistent: its storage and its memtable are, its
    /// knobs and its name are valid, its buffer pool is as the knobs
    /// say, and what is recorded of the runs is what the files hold.
    pub closed spec fn wf(&self) -> bool {
        &&& self.sound()
        &&& self.storage.pool_capacity() == self.config.buffer_pool_capacity
        &&& self.storage.spec_use_pool() == self.config.enable_buffer_pool
    }

    /// The database is consistent but for its buffer pool, which may be set
    /// otherwise than the knobs say.
    pub closed spec fn sound(&self) -> bool {
        &&& self.storage.wf()
        &&& self.memtable.wf()
        &&& valid_config(self.config)
        &&& self.name@.len() > 0 ==> valid_name(self.name@)
        &&& 1 <= self.metadata.entry_counts@.len()
        &&& countable(self.counts())
        &&& runs_sound(self.files(), self.spec_name(), self.counts())
        &&& blooms_sound(
            self.files(),
            self.spec_name(),
            self.counts(),
            self.config.bloom_filter_bits_per_entry,
        )
    }

    /// What a reader sees of a key is its value in the youngest layer that
    /// holds it, unless that is a tombstone; the memtable is the youngest
    /// layer, and under it lie the runs, a level above a deeper level and
    /// within a level a run above the runs with a lower index.
    pub proof fn lemma_view_of_levels(&self, key: Key)
        ensures
            self@.contains_key(key) <==> visible(
                stacked(self.levels(), 0).push(self.memtable_entries()),
                key,
            ) is Some,
            self@.contains_key(key) ==> visible(
                stacked(self.levels(), 0).push(self.memtable_entries()),
                key,
            ) == Some(self@[key]),
    {
        self.lemma_view(key);
        lemma_layers_are_stacked_levels(self.files(), self.spec_name(), self.counts(), 0);
    }

    /// What an open database holds can be opened again: its name and its
    /// knobs are valid, and its files hold the runs that it records.
    pub proof fn lemma_restorable(&self)
        requires
            self.wf(),
            !self.spec_is_closed(),
        ensures
            valid_name(self.spec_name()),
            valid_config(self.spec_config()),
            self.counts().len() >= 1,
            countable(self.counts()),
            runs_sound(self.files(), self.spec_name(), self.counts()),
    {
    }

    /// The buffer pool of a consistent database is as its knobs say.
    pub proof fn lemma_pool(&self)
        requires
            self.wf(),
        ensures
            self.pool_capacity() == self.spec_config().buffer_pool_capacity,
            self.pool_enabled() == self.spec_config().enable_buffer_pool,
    {
    }

    /// The runs are recorded with the numbers of their entries, level by
    /// level, and every run is in strictly ascending order.
    pub proof fn lemma_levels(&self, level: Level, run: Run)
        requires
            self.wf(),
            level < self.counts().len(),
            run < self.counts()[level as int].len(),
        ensures
            self.levels().len() == self.counts().len(),
            self.levels()[level as int].len() == self.counts()[level as int].len(),
            self.levels()[level as int][run as int].len() == self.counts()[level as int][run as int],
            strictly_ascending(self.levels()[level as int][run as int]),
    {
        self.lemma_run_files(level, run);
    }

    /// The file of every run that is recorded holds sixteen bytes for each
    /// entry of the run and nothing else, and the entries that it holds
    /// have strictly ascending keys.
    pub proof fn lemma_run_files(&self, level: Level, run: Run)
        requires
            self.wf(),
            level < self.counts().len(),
            run < self.counts()[level as int].len(),
        ensures
            self.files().contains_key(filename::spec_sst_path(self.spec_name(), level, run)),
            self.files()[filename::spec_sst_path(self.spec_name(), level, run)].len() == 16
                * self.counts()[level as int][run as int],
            entries_from_bytes(
                self.files()[filename::spec_sst_path(self.spec_name(), level, run)],
            ).len() == self.counts()[level as int][run as int],
            strictly_ascending(
                entries_from_bytes(self.files()[filename::spec_sst_path(self.spec_name(), level, run)]),
            ),
    {
        assert(run_ok(
            self.files(),
            self.spec_name(),
            level,
            run,
            self.counts()[level as int][run as int],
        ));
    }

    /// What a reader sees is what `spec_get` gives.
    pub proof fn lemma_view(&self, key: Key)
        ensures
            self@.contains_key(key) == (self.spec_get(key) is Some),
            self@.contains_key(key) ==> self@[key] == self.spec_get(key).unwrap(),
    {
    }

    /// A database under `name` without entries, with the knobs `config`,
    /// over `storage`.
    fn assemble(name: &str, config: Config, storage: Storage) -> (db: Database)
        requires
            storage.wf(),
            storage.files() == Map::<Seq<char>, Seq<u8>>::empty(),
            valid_config(config),
            storage.pool_capacity() == config.buffer_pool_capacity,
            storage.spec_use_pool() == config.enable_buffer_pool,
            name@.len() > 0 ==> valid_name(name@),
        ensures
            db.wf(),
            db.spec_name() == name@,
            db.spec_config() == config,
            db@ == Map::<Key, Value>::empty(),
            db.counts() == seq![Seq::<Size>::empty()],
            db.spec_page_size() == storage.spec_page_size(),
            db.memtable_entries() == Seq::<Entry>::empty(),
    {
        let db = Database {
            name: String::from_str(name),
            config,
            metadata: Metadata::new(),
            memtable: Memtable::new(),
            storage,
        };
        proof {
            assert(db.counts() =~= seq![Seq::<Size>::empty()]);
            assert forall|key: Key| db.spec_get(key) is None by {
                db.lemma_layers_of_memtable(key);
                reveal_with_fuel(disk_layers, 3);
                reveal_with_fuel(newest_value, 3);
                let disk = disk_layers(db.files(), db.spec_name(), db.counts(), 0);
                assert(level_runs(db.files(), db.spec_name(), 0, 0) =~= Seq::<Seq<Entry>>::empty());
                assert(disk =~= Seq::<Seq<Entry>>::empty());
            }
            assert(db@ =~= Map::<Key, Value>::empty());
        }
        db
    }

    /// The memtable decides where it holds a key; the runs decide else.
    proof fn lemma_layers_of_memtable(&self, key: Key)
        ensures
            newest_value(self.layers(), key) == match lookup(self.memtable@, key) {
                Some(value) => Some(value),
                None => newest_value(
                    disk_layers(self.files(), self.spec_name(), self.counts(), 0),
                    key,
                ),
            },
    {
        let disk = disk_layers(self.files(), self.spec_name(), self.counts(), 0);
        assert(self.layers().last() == self.memtable@);
        assert(self.layers().drop_last() =~= disk);
    }

    /// Opens a new database under `name`, with pages of the size that the
    /// machine uses. Fails on an empty name and on one with white space.
    pub fn open(name: &str) -> (opened: Result<Database, StoreError>)
        ensures
            match opened {
                Ok(db) => valid_name(name@) && db.wf() && db.spec_name() == name@ && db@
                    == Map::<Key, Value>::empty() && !db.spec_is_closed() && valid_page_size(
                    db.spec_page_size(),
                ) && db.spec_config() == Config::spec_new(db.spec_page_size()) && db.counts()
                    == seq![Seq::<Size>::empty()] && db.memtable_entries() == Seq::<Entry>::empty(),
                Err(e) => !valid_name(name@) && e == StoreError::InvalidInput,
            },
    {
        Self::open_with_page_size(name, crate::system_info::page_size())
    }

    /// Opens a new database under `name`, with pages of `page_size` bytes.
    pub fn open_with_page_size(name: &str, page_size: usize) -> (opened: Result<Database, StoreError>)
        requires
            valid_page_size(page_size),
        ensures
            match opened {
                Ok(db) => valid_name(name@) && db.wf() && db.spec_name() == name@ && db@
                    == Map::<Key, Value>::empty() && !db.spec_is_closed() && db.spec_page_size()
                    == page_size && db.counts() == seq![Seq::<Size>::empty()] && db.spec_config()
                    == Config::spec_new(page_size) && db.memtable_entries() == Seq::<Entry>::empty(),
                Err(e) => !valid_name(name@) && e == StoreError::InvalidInput,
            },
    {
        if !is_valid_name(name) {
            return Err(StoreError::InvalidInput);
        }
        let config = Config::new(page_size);
        let storage = Storage::new(
            page_size,
            config.buffer_pool_initial_size,
            config.buffer_pool_capacity,
            config.enable_buffer_pool,
        );
        Ok(Self::assemble(name, config, storage))
    }

    /// The value of `key`: that of the memtable where it holds the key,
    /// else that of the youngest run that holds it. A key that was deleted
    /// has no value. A run whose Bloom filter does not let the key pass is
    /// not searched.
    #[verifier::rlimit(80)]
    #[verifier::spinoff_prover]
    pub fn get(&mut self, key: Key) -> (found: Result<Option<Value>, StoreError>)
        requires
            old(self).wf(),
        ensures
            final(self).wf(),
            final(self)@ == old(self)@,
            final(self).layers() == old(self).layers(),
            final(self).spec_name() == old(self).spec_name(),
            final(self).spec_config() == old(self).spec_config(),
            final(self).counts() == old(self).counts(),
            final(self).files() == old(self).files(),
            found == Ok::<Option<Value>, StoreError>(
                if old(self)@.contains_key(key) {
                    Some(old(self)@[key])
                } else {
                    None
                },
            ),
    {
        proof {
            self.lemma_layers_of_memtable(key);
        }
        match self.memtable.get(key) {
            Some(value) => {
                if value == TOMBSTONE_VALUE {
                    return Ok(None);
                }
                return Ok(Some(value));
            },
            None => {},
        }
        let ghost files = self.files();
        let ghost name = self.spec_name();
        let ghost counts = self.counts();
        let ghost target = newest_value(self.layers(), key);
        let levels: usize = self.metadata.entry_counts.len();
        let mut level: usize = 0;
        while level < levels
            invariant
                self.storage.pool_capacity() == old(self).storage.pool_capacity(),
                self.storage.spec_use_pool() == old(self).storage.spec_use_pool(),
                self.storage.wf(),
                self.storage.files() == files,
                self.name == old(self).name,
                self.config == old(self).config,
                self.metadata == old(self).metadata,
                self.memtable == old(self).memtable,
                old(self).wf(),
                files == old(self).files(),
                name == old(self).spec_name(),
                counts == old(self).counts(),
                levels == counts.len(),
                0 <= level <= levels,
                target == newest_value(old(self).layers(), key),
                target == newest_value(disk_layers(files, name, counts, level as int), key),
            decreases levels - level,
        {
            let runs: usize = self.metadata.entry_counts[level].len();
            let mut run: usize = runs;
            let ghost deeper = disk_layers(files, name, counts, level + 1);
            assert(counts[level as int] == self.metadata.entry_counts@[level as int]@);
            while run > 0
                invariant
                    self.storage.pool_capacity() == old(self).storage.pool_capacity(),
                    self.storage.spec_use_pool() == old(self).storage.spec_use_pool(),
                    self.storage.wf(),
                    self.storage.files() == files,
                    self.name == old(self).name,
                    self.config == old(self).config,
                    self.metadata == old(self).metadata,
                    self.memtable == old(self).memtable,
                    old(self).wf(),
                    files == old(self).files(),
                    name == old(self).spec_name(),
                    counts == old(self).counts(),
                    levels == counts.len(),
                    0 <= level < levels,
                    runs == counts[level as int].len(),
                    0 <= run <= runs,
                    deeper == disk_layers(files, name, counts, level + 1),
                    target == newest_value(old(self).layers(), key),
                    target == newest_value(
                        deeper + level_runs(files, name, level, run as nat),
                        key,
                    ),
                decreases run,
            {
                run -= 1;
                let num_entries: usize = self.metadata.entry_counts[level][run];
                let ghost entries = entries_from_bytes(files[filename::spec_sst_path(name, level, run)]);
                proof {
                    assert(counts[level as int][run as int] == num_entries);
                    assert(runs_sound(files, name, counts));
                    assert(run_ok(files, name, level, run, counts[level as int][run as int]));
                    lemma_level_runs_push(files, name, level, run as nat);
                    let younger = level_runs(files, name, level, run as nat);
                    assert(deeper + younger.push(entries) =~= (deeper + younger).push(entries));
                    assert((deeper + younger).push(entries).last() == entries);
                    assert((deeper + younger).push(entries).drop_last() =~= deeper + younger);
                }
                let mut skip: bool = false;
                if self.config.enable_bloom_filter {
                    match BloomFilterIO::contains(
                        &mut self.storage,
                        self.name.as_str(),
                        level,
                        run,
                        key,
                        self.config.bloom_filter_bits_per_entry,
                        num_entries,
                    ) {
                        Ok(maybe) => {
                            if !maybe {
                                proof {
                                    let path = filename::spec_bloom_filter_path(name, level, run);
                                    assert(files.contains_key(path));
                                    assert(blooms_sound(
                                        files,
                                        name,
                                        counts,
                                        self.config.bloom_filter_bits_per_entry,
                                    ));
                                    if holds_key(entries, key) {
                                        let i = choose|i: int|
                                            0 <= i < entries.len() && (#[trigger] entries[i]).0 == key;
                                    }
                                }
                                skip = true;
                            }
                        },
                        Err(_) => {},
                    }
                }
                if !skip {
                    let found = run_get(
                        &mut self.storage,
                        self.name.as_str(),
                        self.config.sst_implementation,
                        self.config.sst_search_algorithm,
                        level,
                        run,
                        key,
                        num_entries,
                    );
                    match found {
                        Ok(Some(value)) => {
                            proof {
                                self.lemma_same_layers(*old(self));
                            }
                            if value == TOMBSTONE_VALUE {
                                return Ok(None);
                            }
                            return Ok(Some(value));
                        },
                        Ok(None) => {},
                        Err(e) => {
                            return Err(e);
                        },
                    }
                }
            }
            proof {
                assert(level_runs(files, name, level, 0) =~= Seq::<Seq<Entry>>::empty());
                assert(deeper + Seq::<Seq<Entry>>::empty() =~= deeper);
            }
            level += 1;
        }
        proof {
            self.lemma_same_layers(*old(self));
        }
        Ok(None)
    }

    /// A database whose files, name, record of runs and memtable are those
    /// of another shows what the other shows.
    proof fn lemma_same_layers(&self, other: Self)
        requires
            self.storage.files() == other.storage.files(),
            self.name == other.name,
            self.metadata == other.metadata,
            self.memtable == other.memtable,
            self.config == other.config,
            self.storage.wf(),
            other.wf(),
        ensures
            self.layers() == other.layers(),
            self@ == other@,
            self.sound(),
            self.storage.pool_capacity() == other.storage.pool_capacity()
                && self.storage.spec_use_pool() == other.storage.spec_use_pool() ==> self.wf(),
    {
        assert(self@ =~= other@);
    }

    /// Whether the database is closed.
    pub fn is_closed(&self) -> (closed: bool)
        ensures
            closed == self.spec_is_closed(),
    {
        self.name.as_str().unicode_len() == 0
    }

    /// Number of runs at level `level`; 0 where there is no such level.
    pub fn sst_count(&self, level: Level) -> (count: Size)
        ensures
            count == if level < self.counts().len() {
                self.counts()[level as int].len()
            } else {
                0
            },
    {
        if level < self.metadata.entry_counts.len() {
            self.metadata.entry_counts[level].len()
        } else {
            0
        }
    }

    /// Writes the entries of the memtable as a new run of the first level,
    /// with its Bloom filter where filters are enabled, and empties the
    /// memtable.
    fn write_memtable(&mut self)
        requires
            old(self).wf(),
        ensures
            final(self).wf(),
            final(self)@ == old(self)@,
            final(self).spec_name() == old(self).spec_name(),
            final(self).spec_config() == old(self).spec_config(),
            final(self).spec_page_size() == old(self).spec_page_size(),
            final(self).memtable_entries() == Seq::<Entry>::empty(),
            final(self).counts() == old(self).counts().update(
                0,
                old(self).counts()[0].push(old(self).memtable_entries().len() as usize),
            ),
            final(self).levels() == old(self).levels().update(
                0,
                old(self).levels()[0].push(old(self).memtable_entries()),
            ),
    {
        let level: usize = LEVEL_ZERO;
        let next_run_num: usize = self.metadata.entry_counts[0].len();
        let entries = self.memtable.as_vec();
        let num_entries: usize = entries.len();
        let ghost files = self.files();
        let ghost name = self.spec_name();
        let ghost counts = self.counts();
        let ghost bits = self.config.bloom_filter_bits_per_entry;
        proof {
            self.memtable.lemma_ascending();
            lemma_run_files_apart(name, 0, next_run_num);
        }
        let written = match self.config.sst_implementation {
            SstImplementation::Array => SortedStringTable::write(
                &array_sst::Sst,
                &mut self.storage,
                self.name.as_str(),
                level,
                next_run_num,
                entries.as_slice(),
            ),
            SstImplementation::Btree => SortedStringTable::write(
                &btree_sst::Sst,
                &mut self.storage,
                self.name.as_str(),
                level,
                next_run_num,
                entries.as_slice(),
            ),
        };
        let ghost stored = self.storage.files();
        if self.config.enable_bloom_filter && bitmap_fits(
            num_entries,
            self.config.bloom_filter_bits_per_entry,
        ) {
            let filter = BloomFilter::from_entries(&entries, self.config.bloom_filter_bits_per_entry);
            let done = BloomFilterIO::write(
                &mut self.storage,
                self.name.as_str(),
                level,
                next_run_num,
                filter.bitmap.as_slice(),
            );
        } else {
            let path = filename::bloom_filter_path(self.name.as_str(), level, next_run_num);
            let removed = self.storage.remove_file(path.as_str());
        }
        self.metadata.entry_counts[0].push(num_entries);
        // The runs of the level can still be counted.
        let recorded: usize = self.metadata.entry_counts[0].len();
        self.memtable.clear();
        proof {
            let after = self.files();
            let grown = counts.update(0, counts[0].push(num_entries));
            assert(self.counts() =~= grown) by {
                assert forall|l: int| 0 <= l < grown.len() implies #[trigger] self.counts()[l] == grown[l] by {
                    if l == 0 {
                        assert(self.metadata.entry_counts@[0]@ =~= counts[0].push(num_entries));
                    } else {
                        assert(self.metadata.entry_counts@[l] == old(self).metadata.entry_counts@[l]);
                    }
                }
            }
            assert forall|other: Seq<char>| #[trigger]
                beside_run(name, 0, next_run_num, other) implies after.contains_key(other)
                == files.contains_key(other) && after[other] == files[other] by {
                assert(stored.contains_key(other) == files.contains_key(other));
                assert(stored[other] == files[other]);
            }
            lemma_append_run(files, after, name, counts, entries@, bits);
            assert forall|key: Key| self.spec_get(key) == old(self).spec_get(key) by {
                let disk = disk_layers(files, name, counts, 0);
                lemma_empty_layer(disk.push(entries@), key);
                assert(self.layers() == disk.push(entries@).push(Seq::<Entry>::empty()));
                assert(old(self).layers() == disk.push(entries@));
            }
            assert(self@ =~= old(self)@);
            assert(countable(self.counts())) by {
                assert forall|l: int| 0 <= l < self.counts().len() implies (#[trigger] self.counts()[l]).len()
                    <= usize::MAX by {
                    if l != 0 {
                        assert(self.counts()[l] == counts[l]);
                    }
                }
            }
        }
    }

    /// Sets `key` to `value` in the memtable, which is flushed first where
    /// it is full. A value that is the tombstone deletes the key.
    fn put_unchecked(&mut self, key: Key, value: Value)
        requires
            old(self).wf(),
        ensures
            final(self).wf(),
            final(self).spec_name() == old(self).spec_name(),
            final(self).spec_config() == old(self).spec_config(),
            final(self).spec_page_size() == old(self).spec_page_size(),
            forall|other: Key| #[trigger]
                final(self).spec_get(other) == if other == key {
                    if value == TOMBSTONE_VALUE {
                        None
                    } else {
                        Some(value)
                    }
                } else {
                    old(self).spec_get(other)
                },
            final(self).memtable_entries() == memtable_after(
                old(self).memtable_entries(),
                old(self).spec_config().memtable_capacity,
                key,
                value,
            ),
            old(self).memtable_entries().len() < old(self).spec_config().memtable_capacity
                ==> final(self).counts() == old(self).counts() && final(self).files() == old(
                self,
            ).files(),
            old(self).memtable_entries().len() >= old(self).spec_config().memtable_capacity
                && old(self).spec_config().compaction_policy == CompactionPolicy::NoCompaction
                ==> final(self).counts() == old(self).counts().update(
                0,
                old(self).counts()[0].push(old(self).memtable_entries().len() as usize),
            ),
            final(self).levels() == if old(self).memtable_entries().len() >= old(
                self,
            ).spec_config().memtable_capacity {
                after_flush(old(self).levels(), old(self).spec_config(), old(self).memtable_entries())
            } else {
                old(self).levels()
            },
            1 <= final(self).memtable_entries().len() <= old(self).spec_config().memtable_capacity,
    {
        if self.memtable.len() >= self.config.memtable_capacity {
            self.flush_memtable();
        }
        let ghost flushed = *self;
        proof {
            self.memtable.lemma_ascending();
        }
        self.memtable.put(key, value);
        proof {
            let disk = disk_layers(flushed.files(), flushed.spec_name(), flushed.counts(), 0);
            assert forall|other: Key| #[trigger]
                self.spec_get(other) == if other == key {
                    if value == TOMBSTONE_VALUE {
                        None
                    } else {
                        Some(value)
                    }
                } else {
                    old(self).spec_get(other)
                } by {
                lemma_put_visible(disk, flushed.memtable@, key, value, other);
                flushed.lemma_view(other);
                old(self).lemma_view(other);
            }
        }
    }

    /// Writes the memtable out as a new run of the first level, and lets
    /// the compaction policy look at that level. Under a compaction policy
    /// the runs of the first level move on before. An empty memtable is not
    /// written.
    pub fn flush_memtable(&mut self)
        requires
            old(self).wf(),
        ensures
            final(self).wf(),
            final(self)@ == old(self)@,
            final(self).spec_name() == old(self).spec_name(),
            final(self).spec_config() == old(self).spec_config(),
            final(self).spec_page_size() == old(self).spec_page_size(),
            final(self).memtable_entries() == Seq::<Entry>::empty(),
            old(self).memtable_entries().len() == 0 ==> final(self).counts() == old(self).counts()
                && final(self).files() == old(self).files(),
            old(self).memtable_entries().len() > 0 && old(self).spec_config().compaction_policy
                == CompactionPolicy::NoCompaction ==> final(self).counts() == old(
                self,
            ).counts().update(
                0,
                old(self).counts()[0].push(old(self).memtable_entries().len() as usize),
            ),
            final(self).levels() == after_flush(
                old(self).levels(),
                old(self).spec_config(),
                old(self).memtable_entries(),
            ),
    {
        if self.memtable.len() < 1 {
            return ;
        }
        match self.config.compaction_policy {
            CompactionPolicy::NoCompaction => {},
            _ => {
                self.move_runs(LEVEL_ZERO);
            },
        }
        self.write_memtable();
        match self.config.compaction_policy {
            CompactionPolicy::NoCompaction => {},
            _ => {
                self.handle_compaction(LEVEL_ZERO);
            },
        }
    }

    /// Sets `key` to `value`. Fails on the key and on the value that are
    /// reserved, and on a closed database.
    pub fn put(&mut self, key: Key, value: Value) -> (done: Result<(), StoreError>)
        requires
            old(self).wf(),
        ensures
            final(self).wf(),
            final(self).spec_name() == old(self).spec_name(),
            final(self).spec_config() == old(self).spec_config(),
            final(self).spec_page_size() == old(self).spec_page_size(),
            done == if old(self).spec_is_closed() {
                Err::<(), StoreError>(StoreError::Closed)
            } else if value == TOMBSTONE_VALUE || key == INVALID_KEY {
                Err::<(), StoreError>(StoreError::InvalidInput)
            } else {
                Ok::<(), StoreError>(())
            },
            done is Ok ==> final(self)@ == old(self)@.insert(key, value),
            done is Err ==> *final(self) == *old(self),
            done is Err ==> final(self)@ == old(self)@,
            done is Ok ==> final(self).memtable_entries() == memtable_after(
                old(self).memtable_entries(),
                old(self).spec_config().memtable_capacity,
                key,
                value,
            ),
            done is Ok && old(self).memtable_entries().len() < old(self).spec_config().memtable_capacity
                ==> final(self).counts() == old(self).counts() && final(self).files() == old(
                self,
            ).files(),
            done is Ok && old(self).memtable_entries().len() >= old(self).spec_config().memtable_capacity
                && old(self).spec_config().compaction_policy == CompactionPolicy::NoCompaction
                ==> final(self).counts() == old(self).counts().update(
                0,
                old(self).counts()[0].push(old(self).memtable_entries().len() as usize),
            ),
            done is Ok ==> final(self).levels() == if old(self).memtable_entries().len() >= old(
                self,
            ).spec_config().memtable_capacity {
                after_flush(old(self).levels(), old(self).spec_config(), old(self).memtable_entries())
            } else {
                old(self).levels()
            },
            done is Ok ==> 1 <= final(self).memtable_entries().len() <= old(self).spec_config().memtable_capacity,
    {
        if self.is_closed() {
            return Err(StoreError::Closed);
        }
        if value == TOMBSTONE_VALUE || key == INVALID_KEY {
            return Err(StoreError::InvalidInput);
        }
        self.put_unchecked(key, value);
        proof {
            assert(self@ =~= old(self)@.insert(key, value)) by {
                assert forall|other: Key| #[trigger]
                    self@.contains_key(other) == old(self)@.insert(key, value).contains_key(other) by {
                    let shown = self.spec_get(other);
                }
                assert forall|other: Key| self@.contains_key(other) implies #[trigger] self@[other]
                    == old(self)@.insert(key, value)[other] by {
                    let shown = self.spec_get(other);
                }
            }
        }
        Ok(())
    }

    /// Deletes `key`. Fails on a closed database.
    pub fn delete(&mut self, key: Key) -> (done: Result<(), StoreError>)
        requires
            old(self).wf(),
        ensures
            final(self).wf(),
            final(self).spec_name() == old(self).spec_name(),
            final(self).spec_config() == old(self).spec_config(),
            final(self).spec_page_size() == old(self).spec_page_size(),
            done == if old(self).spec_is_closed() {
                Err::<(), StoreError>(StoreError::Closed)
            } else {
                Ok::<(), StoreError>(())
            },
            done is Ok ==> final(self)@ == old(self)@.remove(key),
            done is Err ==> *final(self) == *old(self),
            done is Err ==> final(self)@ == old(self)@,
            done is Ok ==> final(self).memtable_entries() == memtable_after(
                old(self).memtable_entries(),
                old(self).spec_config().memtable_capacity,
                key,
                TOMBSTONE_VALUE,
            ),
            done is Ok && old(self).memtable_entries().len() < old(self).spec_config().memtable_capacity
                ==> final(self).counts() == old(self).counts() && final(self).files() == old(
                self,
            ).files(),
            done is Ok && old(self).memtable_entries().len() >= old(self).spec_config().memtable_capacity
                && old(self).spec_config().compaction_policy == CompactionPolicy::NoCompaction
                ==> final(self).counts() == old(self).counts().update(
                0,
                old(self).counts()[0].push(old(self).memtable_entries().len() as usize),
            ),
            done is Ok ==> final(self).levels() == if old(self).memtable_entries().len() >= old(
                self,
            ).spec_config().memtable_capacity {
                after_flush(old(self).levels(), old(self).spec_config(), old(self).memtable_entries())
            } else {
                old(self).levels()
            },
            done is Ok ==> 1 <= final(self).memtable_entries().len() <= old(self).spec_config().memtable_capacity,
    {
        if self.is_closed() {
            return Err(StoreError::Closed);
        }
        self.put_unchecked(key, TOMBSTONE_VALUE);
        proof {
            assert(self@ =~= old(self)@.remove(key)) by {
                assert forall|other: Key| #[trigger]
                    self@.contains_key(other) == old(self)@.remove(key).contains_key(other) by {
                    let shown = self.spec_get(other);
                }
                assert forall|other: Key| self@.contains_key(other) implies #[trigger] self@[other]
                    == old(self)@.remove(key)[other] by {
                    let shown = self.spec_get(other);
                }
            }
        }
        Ok(())
    }

    /// Every layer of a consistent database is in strictly ascending order.
    proof fn lemma_layers_ascending(&self)
        requires
            self.wf(),
        ensures
            all_ascending(self.layers()),
            forall|from_level: int|
                0 <= from_level ==> all_ascending(
                    #[trigger] disk_layers(self.files(), self.spec_name(), self.counts(), from_level),
                ),
    {
        let files = self.files();
        let name = self.spec_name();
        let counts = self.counts();
        assert forall|from_level: int| 0 <= from_level implies all_ascending(
            #[trigger] disk_layers(files, name, counts, from_level),
        ) by {
            lemma_disk_layers_ascending(files, name, counts, from_level);
        }
        self.memtable.lemma_ascending();
        let disk = disk_layers(files, name, counts, 0);
        assert forall|r: int| 0 <= r < self.layers().len() implies strictly_ascending(
            #[trigger] self.layers()[r],
        ) by {
            if r < disk.len() {
                assert(self.layers()[r] == disk[r]);
            }
        }
    }

    /// The entries with keys from `key1` to `key2`, both included, that a
    /// reader sees, in ascending order of their keys: of every key the
    /// value of the youngest layer that holds it, and no key that was
    /// deleted.
    pub fn scan(&mut self, key1: Key, key2: Key) -> (found: Result<Vec<Entry>, StoreError>)
        requires
            old(self).wf(),
        ensures
            final(self).wf(),
            final(self)@ == old(self)@,
            final(self).layers() == old(self).layers(),
            final(self).spec_name() == old(self).spec_name(),
            final(self).spec_config() == old(self).spec_config(),
            final(self).counts() == old(self).counts(),
            final(self).files() == old(self).files(),
            found is Ok,
            strictly_ascending(found.unwrap()@),
            forall|key: Key, value: Value| #[trigger]
                found.unwrap()@.contains((key, value)) <==> key1 <= key <= key2 && old(
                    self,
                )@.contains_key(key) && old(self)@[key] == value,
            key1 > key2 ==> found.unwrap()@.len() == 0,
    {
        let ghost files = self.files();
        let ghost name = self.spec_name();
        let ghost counts = self.counts();
        proof {
            self.lemma_layers_ascending();
        }
        let mut ranges: Vec<Vec<Entry>> = Vec::new();
        let levels: usize = self.metadata.entry_counts.len();
        let mut level: usize = levels;
        proof {
            assert(disk_layers(files, name, counts, levels as int) =~= Seq::<Seq<Entry>>::empty());
            assert(runs_view(ranges@) =~= ranged(
                disk_layers(files, name, counts, levels as int),
                key1,
                key2,
            ));
        }
        while level > 0
            invariant
                self.storage.pool_capacity() == old(self).storage.pool_capacity(),
                self.storage.spec_use_pool() == old(self).storage.spec_use_pool(),
                self.storage.wf(),
                self.storage.files() == files,
                self.name == old(self).name,
                self.config == old(self).config,
                self.metadata == old(self).metadata,
                self.memtable == old(self).memtable,
                old(self).wf(),
                files == old(self).files(),
                name == old(self).spec_name(),
                counts == old(self).counts(),
                levels == counts.len(),
                0 <= level <= levels,
                runs_view(ranges@) == ranged(
                    disk_layers(files, name, counts, level as int),
                    key1,
                    key2,
                ),
            decreases level,
        {
            level -= 1;
            let runs: usize = self.metadata.entry_counts[level].len();
            let ghost deeper = disk_layers(files, name, counts, level + 1);
            assert(counts[level as int] == self.metadata.entry_counts@[level as int]@);
            let mut run: usize = 0;
            proof {
                assert(level_runs(files, name, level, 0) =~= Seq::<Seq<Entry>>::empty());
                assert(deeper + Seq::<Seq<Entry>>::empty() =~= deeper);
            }
            while run < runs
                invariant
                    self.storage.pool_capacity() == old(self).storage.pool_capacity(),
                    self.storage.spec_use_pool() == old(self).storage.spec_use_pool(),
                    self.storage.wf(),
                    self.storage.files() == files,
                    self.name == old(self).name,
                    self.config == old(self).config,
                    self.metadata == old(self).metadata,
                    self.memtable == old(self).memtable,
                    old(self).wf(),
                    files == old(self).files(),
                    name == old(self).spec_name(),
                    counts == old(self).counts(),
                    levels == counts.len(),
                    0 <= level < levels,
                    runs == counts[level as int].len(),
                    0 <= run <= runs,
                    deeper == disk_layers(files, name, counts, level + 1),
                    runs_view(ranges@) == ranged(
                        deeper + level_runs(files, name, level, run as nat),
                        key1,
                        key2,
                    ),
                decreases runs - run,
            {
                let num_entries: usize = self.metadata.entry_counts[level][run];
                let ghost entries = entries_from_bytes(files[filename::spec_sst_path(name, level, run)]);
                proof {
                    assert(counts[level as int][run as int] == num_entries);
                    assert(runs_sound(files, name, counts));
                    assert(run_ok(files, name, level, run, counts[level as int][run as int]));
                    lemma_level_runs_push(files, name, level, run as nat);
                }
                let found = run_scan(
                    &mut self.storage,
                    self.name.as_str(),
                    self.config.sst_implementation,
                    self.config.sst_search_algorithm,
                    level,
                    run,
                    (key1, key2),
                    num_entries,
                );
                match found {
                    Ok(list) => {
                        let ghost before = runs_view(ranges@);
                        ranges.push(list);
                        proof {
                            let younger = level_runs(files, name, level, run as nat);
                            assert(deeper + younger.push(entries) =~= (deeper + younger).push(entries));
                            assert(runs_view(ranges@) =~= before.push(in_range(entries, key1, key2)));
                            assert(ranged((deeper + younger).push(entries), key1, key2) =~= ranged(
                                deeper + younger,
                                key1,
                                key2,
                            ).push(in_range(entries, key1, key2)));
                        }
                    },
                    Err(e) => {
                        return Err(e);
                    },
                }
                run += 1;
            }
        }
        let ghost disk = disk_layers(files, name, counts, 0);
        let ghost before = runs_view(ranges@);
        ranges.push(self.memtable.scan(key1, key2));
        proof {
            self.lemma_same_layers(*old(self));
            assert(runs_view(ranges@) =~= before.push(in_range(self.memtable@, key1, key2)));
            assert(ranged(disk.push(self.memtable@), key1, key2) =~= ranged(disk, key1, key2).push(
                in_range(self.memtable@, key1, key2),
            ));
            assert(runs_view(ranges@) == ranged(old(self).layers(), key1, key2));
            lemma_newest_ranged(old(self).layers(), key1, key2, 0);
        }
        let results = merge_runs(&ranges, true);
        proof {
            assert forall|key: Key, value: Value| #[trigger]
                results@.contains((key, value)) <==> key1 <= key <= key2 && old(self)@.contains_key(
                    key,
                ) && old(self)@[key] == value by {
                lemma_newest_ranged(old(self).layers(), key1, key2, key);
                old(self).lemma_view(key);
            }
            if key1 > key2 && results@.len() > 0 {
                let first = results@[0];
                assert(results@.contains((first.0, first.1)));
            }
        }
        Ok(results)
    }

    /// A copy of the numbers of entries of the runs of level `level`.
    fn level_counts(&self, level: Level) -> (copy: Vec<Size>)
        requires
            level < self.counts().len(),
        ensures
            copy@ == self.counts()[level as int],
    {
        let mut copy: Vec<Size> = Vec::new();
        let mut run: usize = 0;
        let ghost all = self.metadata.entry_counts@[level as int]@;
        while run < self.metadata.entry_counts[level].len()
            invariant
                level < self.metadata.entry_counts@.len(),
                all == self.metadata.entry_counts@[level as int]@,
                0 <= run <= all.len(),
                copy@ == all.take(run as int),
            decreases all.len() - run,
        {
            copy.push(self.metadata.entry_counts[level][run]);
            assert(copy@ =~= all.take(run + 1));
            run += 1;
        }
        assert(all.take(run as int) =~= all);
        copy
    }

    /// Merges the runs of level `level` into one run and builds its Bloom
    /// filter anew. With `discard_tombstones`, which is for the last level
    /// only, keys that were deleted leave the level.
    fn compact_level(&mut self, level: Level, discard_tombstones: bool)
        requires
            old(self).wf(),
            level < old(self).counts().len(),
            discard_tombstones ==> level == old(self).counts().len() - 1,
        ensures
            final(self).wf(),
            final(self)@ == old(self)@,
            final(self).spec_name() == old(self).spec_name(),
            final(self).spec_config() == old(self).spec_config(),
            final(self).spec_page_size() == old(self).spec_page_size(),
            final(self).memtable_entries() == old(self).memtable_entries(),
            final(self).counts().len() == old(self).counts().len(),
            forall|l: int|
                0 <= l < old(self).counts().len() && l != level ==> final(self).counts()[l] == old(
                    self,
                ).counts()[l],
            final(self).levels() == old(self).levels().update(
                level as int,
                compacted_runs(old(self).levels()[level as int], discard_tombstones),
            ),
    {
        let ghost files = self.files();
        let ghost name = self.spec_name();
        let ghost counts = self.counts();
        let ghost bits = self.config.bloom_filter_bits_per_entry;
        let num_runs: usize = self.metadata.entry_counts[level].len();
        assert(counts[level as int] == self.metadata.entry_counts@[level as int]@);
        let mut run: usize = 0;
        while run < num_runs
            invariant
                self.storage.wf(),
                self.storage.spec_page_size() == old(self).storage.spec_page_size(),
                self.storage.spec_use_pool() == old(self).storage.spec_use_pool(),
                self.storage.pool_capacity() == old(self).storage.pool_capacity(),
                self.name == old(self).name,
                self.config == old(self).config,
                self.metadata == old(self).metadata,
                self.memtable == old(self).memtable,
                name == self.name@,
                0 <= run <= num_runs,
                self.storage.files() == without_blooms(files, name, level, run as nat),
            decreases num_runs - run,
        {
            let path = filename::bloom_filter_path(self.name.as_str(), level, run);
            let removed = self.storage.remove_file(path.as_str());
            run += 1;
        }
        let ghost cleared = self.storage.files();
        let ghost sources = level_runs(files, name, level, num_runs as nat);
        proof {
            // Deleting Bloom filters leaves the runs as they were.
            assert forall|r: int| 0 <= r < num_runs implies cleared.contains_key(
                #[trigger] filename::spec_sst_path(name, level, r as usize),
            ) && cleared[filename::spec_sst_path(name, level, r as usize)]
                == files[filename::spec_sst_path(name, level, r as usize)]
                && crate::sst_util::run_file(
                cleared[filename::spec_sst_path(name, level, r as usize)],
                counts[level as int][r] as int,
            ) by {
                let q = r as usize;
                let path = filename::spec_sst_path(name, level, q);
                lemma_sst_is_no_bloom(name, level, num_runs as nat, level, q);
                lemma_without_blooms_at(files, name, level, num_runs as nat, path);
                assert(run_ok(files, name, level, q, counts[level as int][q as int]));
            }
            lemma_level_runs_frame(files, cleared, name, level, num_runs as nat);
            assert(level_sound(cleared, name, level, counts[level as int]));
        }
        let mut level_counts: Vec<Size> = self.level_counts(level);
        let done = match self.config.sst_implementation {
            SstImplementation::Array => SortedStringTable::compact(
                &array_sst::Sst,
                &mut self.storage,
                self.name.as_str(),
                level,
                &mut level_counts,
                discard_tombstones,
            ),
            SstImplementation::Btree => SortedStringTable::compact(
                &btree_sst::Sst,
                &mut self.storage,
                self.name.as_str(),
                level,
                &mut level_counts,
                discard_tombstones,
            ),
        };
        let ghost compacted = self.storage.files();
        let ghost result = merged(level_runs(cleared, name, level, num_runs as nat), discard_tombstones);
        let remaining: usize = level_counts.len();
        let first_count: usize = if remaining > 0 {
            level_counts[0]
        } else {
            0
        };
        let ghost new_counts = level_counts@;
        self.metadata.entry_counts[level] = level_counts;
        proof {
            if num_runs >= 2 {
                assert(compaction_outcome(cleared, compacted, name, level, result));
                crate::serde_entry::lemma_serde_round_trip(result);
            } else {
                assert(compacted == cleared);
            }
        }
        if self.config.enable_bloom_filter && remaining > 0 {
            let written = BloomFilterIO::write_from_sst(
                &mut self.storage,
                self.name.as_str(),
                level,
                0,
                self.config.bloom_filter_bits_per_entry,
                first_count,
            );
        }
        proof {
            let after = self.storage.files();
            let bloom = filename::spec_bloom_filter_path(name, level, 0);
            let first = filename::spec_sst_path(name, level, 0);
            lemma_run_files_apart(name, level, 0);
            let after_counts = self.counts();
            assert(after_counts =~= counts.update(level as int, new_counts)) by {
                assert forall|l: int| 0 <= l < counts.len() implies #[trigger] after_counts[l]
                    == counts.update(level as int, new_counts)[l] by {
                    if l != level {
                        assert(self.metadata.entry_counts@[l] == old(self).metadata.entry_counts@[l]);
                    }
                }
            }
            // Files of entries of other levels, and Bloom filters of other
            // levels, are as they were.
            assert forall|other_level: usize, q: usize| other_level != level implies after.contains_key(
                #[trigger] filename::spec_sst_path(name, other_level, q),
            ) == files.contains_key(filename::spec_sst_path(name, other_level, q))
                && after[filename::spec_sst_path(name, other_level, q)]
                == files[filename::spec_sst_path(name, other_level, q)] by {
                let path = filename::spec_sst_path(name, other_level, q);
                lemma_runs_apart(name, level, 0, other_level, q);
                lemma_sst_is_no_bloom(name, level, num_runs as nat, other_level, q);
                lemma_without_blooms_at(files, name, level, num_runs as nat, path);
            }
            assert forall|other_level: usize, q: usize| other_level != level implies after.contains_key(
                #[trigger] filename::spec_bloom_filter_path(name, other_level, q),
            ) == files.contains_key(filename::spec_bloom_filter_path(name, other_level, q))
                && after[filename::spec_bloom_filter_path(name, other_level, q)]
                == files[filename::spec_bloom_filter_path(name, other_level, q)] by {
                let path = filename::spec_bloom_filter_path(name, other_level, q);
                lemma_runs_apart(name, level, 0, other_level, q);
                assert(no_bloom_of(name, level, num_runs as nat, path)) by {
                    assert forall|r: usize| r < num_runs implies path != #[trigger] filename::spec_bloom_filter_path(
                        name,
                        level,
                        r,
                    ) by {
                        lemma_runs_apart(name, level, r, other_level, q);
                    }
                }
                lemma_without_blooms_at(files, name, level, num_runs as nat, path);
            }
            if num_runs >= 2 {
                assert forall|key: Key| #[trigger]
                    lookup(result, key) == match newest_value(
                        level_runs(files, name, level, counts[level as int].len()),
                        key,
                    ) {
                        Some(value) => if kept(value, discard_tombstones) {
                            Some(value)
                        } else {
                            None
                        },
                        None => None,
                    } by {
                    lemma_merge_shows(sources, result, discard_tombstones, key);
                }
                // The Bloom filter of the merged run is new or missing.
                lemma_without_blooms_at(files, name, level, num_runs as nat, bloom);
                assert(!no_bloom_of(name, level, num_runs as nat, bloom)) by {
                    let zero = 0usize;
                    assert(bloom == filename::spec_bloom_filter_path(name, level, zero));
                }
                assert(!compacted.contains_key(bloom));
                lemma_compacted_sound(
                    files,
                    after,
                    name,
                    counts,
                    after_counts,
                    level,
                    result,
                    discard_tombstones,
                    bits,
                );
                assert forall|key: Key| self.spec_get(key) == old(self).spec_get(key) by {
                    let memtable = self.memtable@;
                    assert(visible(disk_layers(after, name, after_counts, 0).push(memtable), key)
                        == visible(disk_layers(files, name, counts, 0).push(memtable), key));
                }
            } else {
                assert(after_counts =~= counts);
                assert forall|l: usize, q: usize|
                    after.contains_key(#[trigger] filename::spec_sst_path(name, l, q))
                        == files.contains_key(filename::spec_sst_path(name, l, q))
                        && after[filename::spec_sst_path(name, l, q)] == files[filename::spec_sst_path(
                        name,
                        l,
                        q,
                    )] by {
                    let path = filename::spec_sst_path(name, l, q);
                    lemma_sst_is_no_bloom(name, level, num_runs as nat, l, q);
                    lemma_without_blooms_at(files, name, level, num_runs as nat, path);
                    if l == level && q == 0 {
                    } else {
                        lemma_runs_apart(name, level, 0, l, q);
                    }
                }
                assert forall|q: usize|
                    level < counts.len() && q < counts[level as int].len() && after.contains_key(
                        #[trigger] filename::spec_bloom_filter_path(name, level, q),
                    ) implies bloom_covers(
                    after[filename::spec_bloom_filter_path(name, level, q)],
                    bits,
                    entries_from_bytes(after[filename::spec_sst_path(name, level, q)]),
                ) by {
                    assert(q == 0);
                    lemma_without_blooms_at(files, name, level, num_runs as nat, bloom);
                    assert(!no_bloom_of(name, level, num_runs as nat, bloom)) by {
                        let zero = 0usize;
                        assert(bloom == filename::spec_bloom_filter_path(name, level, zero));
                    }
                    assert(!compacted.contains_key(bloom));
                    assert(run_ok(files, name, level, 0, counts[level as int][0]));
                }
                lemma_blooms_refreshed(files, after, name, counts, level, bits);
            }
            assert(self@ =~= old(self)@);
            let runs = compacted_runs(sources, discard_tombstones);
            assert(level_runs(after, name, level, after_counts[level as int].len()) =~= runs) by {
                if num_runs >= 2 {
                    assert(after[first] == compacted[first]);
                    if result.len() > 0 {
                        assert(after_counts[level as int].len() == 1);
                        let zero = 0usize;
                        assert(first == filename::spec_sst_path(name, level, zero));
                    }
                } else {
                    lemma_level_runs_frame(files, after, name, level, num_runs as nat);
                }
            }
            lemma_levels_with_one_changed(files, after, name, counts, after_counts, level, runs);
        }
    }

    /// Moves the files of run `run` of level `level` to run `target` of the
    /// next level: the entries, the index if there is one, and the Bloom
    /// filter if there is one. Without a Bloom filter to move, none is left
    /// at the target.
    fn move_run_files(&mut self, level: Level, run: Run, target: Run)
        requires
            old(self).storage.wf(),
            level < usize::MAX,
            old(self).storage.files().contains_key(
                filename::spec_sst_path(old(self).name@, level, run),
            ),
        ensures
            final(self).storage.wf(),
            final(self).storage.spec_page_size() == old(self).storage.spec_page_size(),
            final(self).storage.spec_use_pool() == old(self).storage.spec_use_pool(),
            final(self).storage.pool_capacity() == old(self).storage.pool_capacity(),
            final(self).name == old(self).name,
            final(self).config == old(self).config,
            final(self).metadata == old(self).metadata,
            final(self).memtable == old(self).memtable,
            ({
                let name = old(self).name@;
                let before = old(self).storage.files();
                let after = final(self).storage.files();
                let next = (level + 1) as usize;
                &&& after.contains_key(filename::spec_sst_path(name, next, target))
                &&& after[filename::spec_sst_path(name, next, target)]
                    == before[filename::spec_sst_path(name, level, run)]
                &&& after.contains_key(filename::spec_bloom_filter_path(name, next, target))
                    == before.contains_key(filename::spec_bloom_filter_path(name, level, run))
                &&& after.contains_key(filename::spec_bloom_filter_path(name, next, target))
                    ==> after[filename::spec_bloom_filter_path(name, next, target)]
                    == before[filename::spec_bloom_filter_path(name, level, run)]
                &&& forall|path: Seq<char>|
                    beside_run(name, level, run, path) && #[trigger] beside_run(name, next, target, path)
                        ==> after.contains_key(path) == before.contains_key(path) && after[path]
                        == before[path]
            }),
    {
        let next_level: usize = level + 1;
        let ghost name = self.name@;
        proof {
            lemma_runs_apart(name, level, run, next_level, target);
            lemma_runs_apart(name, next_level, target, level, run);
            lemma_run_files_apart(name, level, run);
            lemma_run_files_apart(name, next_level, target);
        }
        let sst_path = filename::sst_path(self.name.as_str(), level, run);
        let new_sst_path = filename::sst_path(self.name.as_str(), next_level, target);
        let renamed = self.storage.rename_file(sst_path.as_str(), new_sst_path.as_str());
        let btree_path = filename::sst_btree_path(self.name.as_str(), level, run);
        if self.storage.path_exists(btree_path.as_str()) {
            let new_btree_path = filename::sst_btree_path(self.name.as_str(), next_level, target);
            let renamed = self.storage.rename_file(btree_path.as_str(), new_btree_path.as_str());
        }
        let bloom_path = filename::bloom_filter_path(self.name.as_str(), level, run);
        let new_bloom_path = filename::bloom_filter_path(self.name.as_str(), next_level, target);
        if self.storage.path_exists(bloom_path.as_str()) {
            let renamed = self.storage.rename_file(bloom_path.as_str(), new_bloom_path.as_str());
        } else {
            let removed = self.storage.remove_file(new_bloom_path.as_str());
        }
    }

    /// Moves all runs of level `level` to the next level, behind the runs
    /// that are there, with their indexes and Bloom filters, and lets the
    /// compaction policy look at that level. Runs that have reached the
    /// last level that the database grows to stay where they are.
    fn move_runs(&mut self, level: Level)
        requires
            old(self).wf(),
            level < old(self).counts().len(),
        ensures
            final(self).wf(),
            final(self)@ == old(self)@,
            final(self).spec_name() == old(self).spec_name(),
            final(self).spec_config() == old(self).spec_config(),
            final(self).spec_page_size() == old(self).spec_page_size(),
            final(self).memtable_entries() == old(self).memtable_entries(),
            final(self).levels() == after_moving(old(self).levels(), old(self).spec_config(), level as int),
        decreases MAX_LEVELS - level, 0int,
    {
        let moved_count: usize = self.metadata.entry_counts[level].len();
        if moved_count == 0 || level + 1 >= MAX_LEVELS {
            return ;
        }
        let next_level: usize = level + 1;
        let levels: usize = self.metadata.entry_counts.len();
        let num_runs_in_next_level: usize = if next_level < levels {
            self.metadata.entry_counts[next_level].len()
        } else {
            0
        };
        if num_runs_in_next_level > usize::MAX - moved_count {
            return ;
        }
        let ghost files = self.files();
        let ghost name = self.spec_name();
        let ghost counts = self.counts();
        let ghost bits = self.config.bloom_filter_bits_per_entry;
        assert(counts[level as int] == self.metadata.entry_counts@[level as int]@);
        let mut run: usize = 0;
        while run < moved_count
            invariant
                self.storage.wf(),
                self.storage.spec_page_size() == old(self).storage.spec_page_size(),
                self.storage.spec_use_pool() == old(self).storage.spec_use_pool(),
                self.storage.pool_capacity() == old(self).storage.pool_capacity(),
                self.name == old(self).name,
                self.config == old(self).config,
                self.metadata == old(self).metadata,
                self.memtable == old(self).memtable,
                old(self).wf(),
                files == old(self).files(),
                name == old(self).spec_name(),
                counts == old(self).counts(),
                level < counts.len(),
                next_level == level + 1,
                moved_count == counts[level as int].len(),
                num_runs_in_next_level == (if next_level < counts.len() {
                    counts[next_level as int].len()
                } else {
                    0
                }),
                num_runs_in_next_level + moved_count <= usize::MAX,
                0 <= run <= moved_count,
                forall|i: usize|
                    i < run ==> self.storage.files().contains_key(
                        #[trigger] filename::spec_sst_path(
                            name,
                            next_level,
                            (num_runs_in_next_level + i) as usize,
                        ),
                    ) && self.storage.files()[filename::spec_sst_path(
                        name,
                        next_level,
                        (num_runs_in_next_level + i) as usize,
                    )] == files[filename::spec_sst_path(name, level, i)],
                forall|i: usize|
                    i < run && self.storage.files().contains_key(
                        #[trigger] filename::spec_bloom_filter_path(
                            name,
                            next_level,
                            (num_runs_in_next_level + i) as usize,
                        ),
                    ) ==> files.contains_key(filename::spec_bloom_filter_path(name, level, i))
                        && self.storage.files()[filename::spec_bloom_filter_path(
                        name,
                        next_level,
                        (num_runs_in_next_level + i) as usize,
                    )] == files[filename::spec_bloom_filter_path(name, level, i)],
                forall|i: usize|
                    run <= i < moved_count ==> self.storage.files().contains_key(
                        #[trigger] filename::spec_sst_path(name, level, i),
                    ) == files.contains_key(filename::spec_sst_path(name, level, i))
                        && self.storage.files()[filename::spec_sst_path(name, level, i)]
                        == files[filename::spec_sst_path(name, level, i)],
                forall|i: usize|
                    run <= i < moved_count ==> self.storage.files().contains_key(
                        #[trigger] filename::spec_bloom_filter_path(name, level, i),
                    ) == files.contains_key(filename::spec_bloom_filter_path(name, level, i))
                        && self.storage.files()[filename::spec_bloom_filter_path(name, level, i)]
                        == files[filename::spec_bloom_filter_path(name, level, i)],
                forall|l: usize, j: usize|
                    l < counts.len() && l != level && j < counts[l as int].len()
                        ==> self.storage.files().contains_key(
                        #[trigger] filename::spec_sst_path(name, l, j),
                    ) == files.contains_key(filename::spec_sst_path(name, l, j))
                        && self.storage.files()[filename::spec_sst_path(name, l, j)]
                        == files[filename::spec_sst_path(name, l, j)],
                forall|l: usize, j: usize|
                    l < counts.len() && l != level && j < counts[l as int].len()
                        ==> self.storage.files().contains_key(
                        #[trigger] filename::spec_bloom_filter_path(name, l, j),
                    ) == files.contains_key(filename::spec_bloom_filter_path(name, l, j))
                        && self.storage.files()[filename::spec_bloom_filter_path(name, l, j)]
                        == files[filename::spec_bloom_filter_path(name, l, j)],
            decreases moved_count - run,
        {
            let new_run: usize = run + num_runs_in_next_level;
            let ghost before = self.storage.files();
            proof {
                assert(run_ok(files, name, level, run, counts[level as int][run as int]));
                assert(before.contains_key(filename::spec_sst_path(name, level, run)));
            }
            self.move_run_files(level, run, new_run);
            proof {
                let after = self.storage.files();
                // Whatever belongs to another run is as it was.
                assert forall|l: usize, j: usize|
                    (l != level || j != run) && (l != next_level || j != new_run) implies after.contains_key(
                    #[trigger] filename::spec_sst_path(name, l, j),
                ) == before.contains_key(filename::spec_sst_path(name, l, j))
                    && after[filename::spec_sst_path(name, l, j)] == before[filename::spec_sst_path(
                    name,
                    l,
                    j,
                )] by {
                    lemma_runs_apart(name, level, run, l, j);
                    lemma_runs_apart(name, next_level, new_run, l, j);
                    assert(beside_run(
                        name,
                        next_level,
                        new_run,
                        filename::spec_sst_path(name, l, j),
                    ));
                }
                assert forall|l: usize, j: usize|
                    (l != level || j != run) && (l != next_level || j != new_run) implies after.contains_key(
                    #[trigger] filename::spec_bloom_filter_path(name, l, j),
                ) == before.contains_key(filename::spec_bloom_filter_path(name, l, j))
                    && after[filename::spec_bloom_filter_path(name, l, j)]
                    == before[filename::spec_bloom_filter_path(name, l, j)] by {
                    lemma_runs_apart(name, level, run, l, j);
                    lemma_runs_apart(name, next_level, new_run, l, j);
                    assert(beside_run(
                        name,
                        next_level,
                        new_run,
                        filename::spec_bloom_filter_path(name, l, j),
                    ));
                }
                assert forall|i: usize| i < run + 1 implies after.contains_key(
                    #[trigger] filename::spec_sst_path(
                        name,
                        next_level,
                        (num_runs_in_next_level + i) as usize,
                    ),
                ) && after[filename::spec_sst_path(
                    name,
                    next_level,
                    (num_runs_in_next_level + i) as usize,
                )] == files[filename::spec_sst_path(name, level, i)] by {
                    if i < run {
                        assert(before.contains_key(
                            filename::spec_sst_path(
                                name,
                                next_level,
                                (num_runs_in_next_level + i) as usize,
                            ),
                        ));
                    }
                }
                assert forall|i: usize|
                    i < run + 1 && after.contains_key(
                        #[trigger] filename::spec_bloom_filter_path(
                            name,
                            next_level,
                            (num_runs_in_next_level + i) as usize,
                        ),
                    ) implies files.contains_key(filename::spec_bloom_filter_path(name, level, i))
                    && after[filename::spec_bloom_filter_path(
                    name,
                    next_level,
                    (num_runs_in_next_level + i) as usize,
                )] == files[filename::spec_bloom_filter_path(name, level, i)] by {
                    if i < run {
                        assert(before.contains_key(
                            filename::spec_bloom_filter_path(
                                name,
                                next_level,
                                (num_runs_in_next_level + i) as usize,
                            ),
                        ));
                    }
                }
            }
            run += 1;
        }
        let ghost moved_files = self.storage.files();
        let mut moved: Vec<Size> = self.level_counts(level);
        if next_level == levels {
            self.metadata.entry_counts.push(Vec::new());
        }
        let ghost widened = self.metadata.entry_counts@;
        let mut next_counts: Vec<Size> = Vec::new();
        let mut j: usize = 0;
        while j < self.metadata.entry_counts[next_level].len()
            invariant
                next_level < self.metadata.entry_counts@.len(),
                self.metadata.entry_counts@ == widened,
                0 <= j <= widened[next_level as int]@.len(),
                next_counts@ == widened[next_level as int]@.take(j as int),
            decreases widened[next_level as int]@.len() - j,
        {
            next_counts.push(self.metadata.entry_counts[next_level][j]);
            assert(next_counts@ =~= widened[next_level as int]@.take(j + 1));
            j += 1;
        }
        assert(next_counts@ =~= widened[next_level as int]@);
        next_counts.append(&mut moved);
        self.metadata.entry_counts[next_level] = next_counts;
        self.metadata.entry_counts[level] = Vec::new();
        proof {
            let after_counts = self.counts();
            let there = num_runs_in_next_level;
            let old_next = if level + 1 < counts.len() {
                counts[level + 1]
            } else {
                Seq::<Size>::empty()
            };
            assert(after_counts[next_level as int] =~= old_next + counts[level as int]) by {
                if next_level < levels {
                    assert(widened[next_level as int] == old(self).metadata.entry_counts@[next_level as int]);
                }
            }
            assert(after_counts[level as int] =~= Seq::<Size>::empty());
            assert forall|l: int|
                0 <= l < counts.len() && l != level && l != level + 1 implies after_counts[l]
                == counts[l] by {
                assert(self.metadata.entry_counts@[l] == old(self).metadata.entry_counts@[l]);
            }
            assert(countable(after_counts)) by {
                assert forall|l: int| 0 <= l < after_counts.len() implies (#[trigger] after_counts[l]).len()
                    <= usize::MAX by {
                    if l != level && l != level + 1 {
                        assert(after_counts[l] == counts[l]);
                    }
                }
            }
            assert(after_counts[level + 1].len() - counts[level as int].len() == there);
            lemma_moved_sound(files, moved_files, name, counts, after_counts, level, bits);
            assert(self.layers() == old(self).layers());
            assert(self@ =~= old(self)@);
            lemma_levels_after_move(files, moved_files, name, counts, after_counts, level);
        }
        self.handle_compaction(next_level);
    }

    /// Compacts level `level` as the compaction policy asks for. The
    /// leveled policy merges the runs of the level and moves the merged
    /// run on once it has the size of the level; the tiered policy waits
    /// until the level holds as many runs as the size ratio says, merges
    /// them and moves the merged run on; the third policy is leveled at
    /// the last level and tiered at the others. The leveled policy never
    /// compacts the first level.
    pub fn handle_compaction(&mut self, level: Level)
        requires
            old(self).wf(),
        ensures
            final(self).wf(),
            final(self)@ == old(self)@,
            final(self).spec_name() == old(self).spec_name(),
            final(self).spec_config() == old(self).spec_config(),
            final(self).spec_page_size() == old(self).spec_page_size(),
            final(self).memtable_entries() == old(self).memtable_entries(),
            final(self).levels() == after_handling(
                old(self).levels(),
                old(self).spec_config(),
                level as int,
            ),
        decreases MAX_LEVELS - level, 1int,
    {
        if level >= self.metadata.entry_counts.len() || level >= MAX_LEVELS {
            return ;
        }
        let num_runs: usize = self.metadata.entry_counts[level].len();
        let size_ratio: usize = self.config.sst_size_ratio;
        let is_last_level: bool = level == self.metadata.entry_counts.len() - 1;
        let leveled: bool = match self.config.compaction_policy {
            CompactionPolicy::NoCompaction => {
                return ;
            },
            CompactionPolicy::Leveled => true,
            CompactionPolicy::Tiered => false,
            CompactionPolicy::Dovstoevsky => is_last_level,
        };
        if leveled {
            if level < 1 {
                return ;
            }
            self.compact_level(level, is_last_level);
            let num_entries: usize = if self.metadata.entry_counts[level].len() > 0 {
                proof {
                    self.lemma_run_files(level, 0);
                }
                self.metadata.entry_counts[level][0]
            } else {
                0
            };
            if Self::fills_level(num_entries, self.config.memtable_capacity, size_ratio, level) {
                self.move_runs(level);
            }
        } else {
            if num_runs >= size_ratio {
                self.compact_level(level, is_last_level);
                self.move_runs(level);
            }
        }
    }

    /// Whether a run of `num_entries` entries fills level `level`: whether
    /// it holds `size_ratio` times the entries of a run of the level before,
    /// which are `memtable_capacity` times `size_ratio` to the power of
    /// `level - 1`.
    pub fn fills_level(num_entries: Size, memtable_capacity: Size, size_ratio: Size, level: Level) -> (full:
        bool)
        requires
            level >= 1,
        ensures
            full == spec_fills_level(num_entries, memtable_capacity, size_ratio, level),
    {
        proof {
            if size_ratio >= 1 {
                vstd::arithmetic::power::lemma_pow_positive(size_ratio as int, (level - 1) as nat);
                let factor = vstd::arithmetic::power::pow(size_ratio as int, (level - 1) as nat);
                assert(memtable_capacity * factor >= 0) by (nonlinear_arith)
                    requires
                        factor >= 1,
                        memtable_capacity >= 0,
                ;
                assert(memtable_capacity * factor > usize::MAX ==> factor > usize::MAX
                    || memtable_capacity * factor > usize::MAX);
                if factor > usize::MAX {
                    assert(memtable_capacity >= 1 ==> memtable_capacity * factor > usize::MAX)
                        by (nonlinear_arith)
                        requires
                            factor > usize::MAX,
                            memtable_capacity >= 0,
                    ;
                    assert(memtable_capacity == 0 ==> memtable_capacity * factor == 0)
                        by (nonlinear_arith);
                }
            }
        }
        if size_ratio == 0 {
            return level == 1 && memtable_capacity >= 1;
        }
        match power(size_ratio, level - 1) {
            Some(factor) => match memtable_capacity.checked_mul(factor) {
                Some(lower_lvl_run_size) => lower_lvl_run_size >= 1 && div_ceil(
                    num_entries,
                    lower_lvl_run_size,
                ) >= size_ratio,
                None => false,
            },
            None => false,
        }
    }

    /// The database with other knobs, where the new knobs are valid and
    /// keep the bits per entry of the Bloom filters as they are.
    fn with_config(self, config: Config) -> (db: Self)
        requires
            self.sound(),
            valid_config(config),
            self.storage.pool_capacity() == config.buffer_pool_capacity,
            self.storage.spec_use_pool() == config.enable_buffer_pool,
            config.bloom_filter_bits_per_entry == self.spec_config().bloom_filter_bits_per_entry,
        ensures
            db.wf(),
            db@ == self@,
            db.layers() == self.layers(),
            db.spec_name() == self.spec_name(),
            db.spec_config() == config,
            db.counts() == self.counts(),
            db.files() == self.files(),
            db.spec_page_size() == self.spec_page_size(),
            db.memtable_entries() == self.memtable_entries(),
    {
        let mut db = self;
        db.config = config;
        proof {
            assert(db@ =~= self@);
        }
        db
    }

    /// The name of the database; empty where it is closed.
    pub fn name(&self) -> (name: String)
        ensures
            name@ == self.spec_name(),
    {
        self.name.clone()
    }

    /// The knobs of the database.
    pub fn config(&self) -> (config: Config)
        ensures
            config == self.spec_config(),
    {
        self.config
    }

    /// The numbers of entries of the runs, by level.
    pub fn entry_counts(&self) -> (entry_counts: &Vec<Vec<Size>>)
        ensures
            counts_view(entry_counts@) == self.counts(),
    {
        &self.metadata.entry_counts
    }

    /// The storage of the database.
    pub fn storage(&self) -> (storage: &Storage)
        requires
            self.wf(),
        ensures
            storage.wf(),
            storage.files() == self.files(),
    {
        &self.storage
    }

    /// Size in bytes of the pages of the database.
    pub fn page_size(&self) -> (page_size: usize)
        ensures
            page_size == self.spec_page_size(),
    {
        self.storage.page_size()
    }

    /// Number of entries in the memtable.
    pub fn memtable_len(&self) -> (len: Size)
        requires
            self.wf(),
        ensures
            len == self.memtable_entries().len(),
    {
        self.memtable.len()
    }

    pub fn memtable_capacity(&self) -> (capacity: Size)
        ensures
            capacity == self.spec_config().memtable_capacity,
    {
        self.config.memtable_capacity
    }

    /// Sets the number of entries at which the memtable is flushed. Fails
    /// on a capacity of zero.
    pub fn set_memtable_capacity(self, memtable_capacity: Size) -> (db: Result<Self, StoreError>)
        requires
            self.wf(),
        ensures
            match db {
                Ok(db) => memtable_capacity >= 1 && db.wf() && db.levels() == self.levels() && db.memtable_entries()
                    == self.memtable_entries() && db@ == self@ && db.spec_name()
                    == self.spec_name() && db.spec_config() == (Config {
                    memtable_capacity,
                    ..self.spec_config()
                }) && db.counts() == self.counts() && db.spec_page_size() == self.spec_page_size(),
                Err(e) => memtable_capacity < 1 && e == StoreError::InvalidInput,
            },
    {
        if memtable_capacity < 1 {
            return Err(StoreError::InvalidInput);
        }
        let config = Config { memtable_capacity, ..self.config };
        Ok(self.with_config(config))
    }

    /// Sets the size of the memtable in mebibytes. Fails where that is no
    /// entry, or more than can be counted.
    pub fn set_memtable_capacity_mb(self, memtable_capacity_mb: Size) -> (db: Result<Self, StoreError>)
        requires
            self.wf(),
        ensures
            match db {
                Ok(db) => memtable_capacity_mb >= 1 && memtable_capacity_mb * 0x10_0000 <= usize::MAX
                    && db.wf() && db.levels() == self.levels() && db.memtable_entries()
                    == self.memtable_entries() && db@ == self@ && db.spec_name() == self.spec_name() && db.spec_config()
                    == (Config {
                    memtable_capacity: (memtable_capacity_mb * 0x10_0000 / 16) as usize,
                    ..self.spec_config()
                }) && db.counts() == self.counts() && db.spec_page_size() == self.spec_page_size(),
                Err(e) => if memtable_capacity_mb * 0x10_0000 > usize::MAX {
                    e == StoreError::TooLarge
                } else {
                    memtable_capacity_mb == 0 && e == StoreError::InvalidInput
                },
            },
    {
        match memtable_capacity_mb.checked_mul(0x10_0000) {
            Some(bytes) => self.set_memtable_capacity(bytes / crate::system_info::ENTRY_SIZE),
            None => Err(StoreError::TooLarge),
        }
    }

    pub fn sst_size_ratio(&self) -> (ratio: Size)
        ensures
            ratio == self.spec_config().sst_size_ratio,
    {
        self.config.sst_size_ratio
    }

    /// Sets the size ratio between one level and the next.
    pub fn set_sst_size_ratio(self, sst_size_ratio: Size) -> (db: Self)
        requires
            self.wf(),
        ensures
            db.wf(),
            db.levels() == self.levels(),
            db.memtable_entries() == self.memtable_entries(),
            db@ == self@,
            db.spec_name() == self.spec_name(),
            db.spec_config() == (Config { sst_size_ratio, ..self.spec_config() }),
            db.counts() == self.counts(),
            db.spec_page_size() == self.spec_page_size(),
    {
        let config = Config { sst_size_ratio, ..self.config };
        self.with_config(config)
    }

    pub fn sst_implementation(&self) -> (implementation: SstImplementation)
        ensures
            implementation == self.spec_config().sst_implementation,
    {
        self.config.sst_implementation
    }

    /// Sets the kind of run that the database writes from now on.
    pub fn set_sst_implementation(self, sst_implementation: SstImplementation) -> (db: Self)
        requires
            self.wf(),
        ensures
            db.wf(),
            db.levels() == self.levels(),
            db.memtable_entries() == self.memtable_entries(),
            db@ == self@,
            db.spec_name() == self.spec_name(),
            db.spec_config() == (Config { sst_implementation, ..self.spec_config() }),
            db.counts() == self.counts(),
            db.spec_page_size() == self.spec_page_size(),
    {
        let config = Config { sst_implementation, ..self.config };
        self.with_config(config)
    }

    pub fn sst_search_algorithm(&self) -> (algorithm: SstSearchAlgorithm)
        ensures
            algorithm == self.spec_config().sst_search_algorithm,
    {
        self.config.sst_search_algorithm
    }

    /// Sets the search that reads use.
    pub fn set_sst_search_algorithm(self, sst_search_algorithm: SstSearchAlgorithm) -> (db: Self)
        requires
            self.wf(),
        ensures
            db.wf(),
            db.levels() == self.levels(),
            db.memtable_entries() == self.memtable_entries(),
            db@ == self@,
            db.spec_name() == self.spec_name(),
            db.spec_config() == (Config { sst_search_algorithm, ..self.spec_config() }),
            db.counts() == self.counts(),
            db.spec_page_size() == self.spec_page_size(),
    {
        let config = Config { sst_search_algorithm, ..self.config };
        self.with_config(config)
    }

    pub fn enable_buffer_pool(&self) -> (enabled: bool)
        ensures
            enabled == self.spec_config().enable_buffer_pool,
    {
        self.config.enable_buffer_pool
    }

    /// Says whether pages are served from the buffer pool.
    pub fn set_enable_buffer_pool(self, enable_buffer_pool: bool) -> (db: Self)
        requires
            self.wf(),
        ensures
            db.wf(),
            db.levels() == self.levels(),
            db.memtable_entries() == self.memtable_entries(),
            db@ == self@,
            db.spec_name() == self.spec_name(),
            db.spec_config() == (Config { enable_buffer_pool, ..self.spec_config() }),
            db.counts() == self.counts(),
            db.spec_page_size() == self.spec_page_size(),
            db.pool_enabled() == enable_buffer_pool,
            db.pool_capacity() == self.pool_capacity(),
    {
        let mut db = self;
        db.storage.set_use_pool(enable_buffer_pool);
        proof {
            db.lemma_same_layers(self);
        }
        let config = Config { enable_buffer_pool, ..db.config };
        db.with_config(config)
    }

    pub fn buffer_pool_capacity(&self) -> (capacity: Size)
        ensures
            capacity == self.spec_config().buffer_pool_capacity,
    {
        self.config.buffer_pool_capacity
    }

    /// Sets the capacity of the buffer pool in pages; the pool evicts
    /// frames where it holds more. Fails on a capacity of zero.
    pub fn set_buffer_pool_capacity(self, buffer_pool_capacity: Size) -> (db: Result<Self, StoreError>)
        requires
            self.wf(),
        ensures
            match db {
                Ok(db) => buffer_pool_capacity >= 1 && db.pool_capacity() == buffer_pool_capacity
                    && db.pool_enabled() == self.pool_enabled() && db.wf() && db.levels() == self.levels() && db.memtable_entries()
                    == self.memtable_entries() && db@ == self@ && db.spec_name()
                    == self.spec_name() && db.spec_config() == (Config {
                    buffer_pool_capacity,
                    ..self.spec_config()
                }) && db.counts() == self.counts() && db.spec_page_size() == self.spec_page_size(),
                Err(e) => buffer_pool_capacity < 1 && e == StoreError::InvalidInput,
            },
    {
        if buffer_pool_capacity < 1 {
            return Err(StoreError::InvalidInput);
        }
        let mut db = self;
        db.storage.set_pool_capacity(buffer_pool_capacity);
        proof {
            db.lemma_same_layers(self);
        }
        let config = Config { buffer_pool_capacity, ..db.config };
        Ok(db.with_config(config))
    }

    /// Sets the capacity of the buffer pool in mebibytes.
    pub fn set_buffer_pool_capacity_mb(self, buffer_pool_capacity_mb: Size) -> (db: Result<
        Self,
        StoreError,
    >)
        requires
            self.wf(),
        ensures
            ({
                let bytes = buffer_pool_capacity_mb * 0x10_0000;
                let pages = bytes / (self.spec_page_size() as int);
                match db {
                    Ok(db) => bytes <= usize::MAX && pages >= 1 && db.wf() && db.levels() == self.levels() && db.memtable_entries()
                    == self.memtable_entries() && db@ == self@
                        && db.spec_name() == self.spec_name() && db.spec_config() == (Config {
                        buffer_pool_capacity: pages as usize,
                        ..self.spec_config()
                    }) && db.counts() == self.counts() && db.spec_page_size()
                        == self.spec_page_size(),
                    Err(e) => if bytes > usize::MAX {
                        e == StoreError::TooLarge
                    } else {
                        pages < 1 && e == StoreError::InvalidInput
                    },
                }
            }),
    {
        proof {
            self.storage.lemma_page_size();
        }
        let page_size: usize = self.storage.page_size();
        match buffer_pool_capacity_mb.checked_mul(0x10_0000) {
            Some(bytes) => self.set_buffer_pool_capacity(bytes / page_size),
            None => Err(StoreError::TooLarge),
        }
    }

    pub fn buffer_pool_initial_size(&self) -> (size: Size)
        ensures
            size == self.spec_config().buffer_pool_initial_size,
    {
        self.config.buffer_pool_initial_size
    }

    /// Sets the number of buckets that the buffer pool starts with; where
    /// that is a change, the pool starts anew. Fails on zero and on more
    /// buckets than a pool can start with.
    pub fn set_buffer_pool_initial_size(self, buffer_pool_initial_size: Size) -> (db: Result<
        Self,
        StoreError,
    >)
        requires
            self.wf(),
        ensures
            match db {
                Ok(db) => 1 <= buffer_pool_initial_size <= MAX_DIRECTORY_SIZE && db.wf() && db.levels() == self.levels() && db.memtable_entries()
                    == self.memtable_entries() && db@
                    == self@ && db.spec_name() == self.spec_name() && db.spec_config() == (Config {
                    buffer_pool_initial_size,
                    ..self.spec_config()
                }) && db.counts() == self.counts() && db.spec_page_size() == self.spec_page_size(),
                Err(e) => if buffer_pool_initial_size < 1 {
                    e == StoreError::InvalidInput
                } else {
                    buffer_pool_initial_size > MAX_DIRECTORY_SIZE && e == StoreError::TooLarge
                },
            },
    {
        if buffer_pool_initial_size < 1 {
            return Err(StoreError::InvalidInput);
        }
        if buffer_pool_initial_size > MAX_DIRECTORY_SIZE {
            return Err(StoreError::TooLarge);
        }
        let mut db = self;
        if buffer_pool_initial_size != db.config.buffer_pool_initial_size {
            db.storage.reset_pool(buffer_pool_initial_size, db.config.buffer_pool_capacity);
        }
        proof {
            db.lemma_same_layers(self);
        }
        let config = Config { buffer_pool_initial_size, ..db.config };
        Ok(db.with_config(config))
    }

    /// Sets the size that the buffer pool starts with, in mebibytes.
    pub fn set_buffer_pool_initial_size_mb(self, buffer_pool_initial_size_mb: Size) -> (db: Result<
        Self,
        StoreError,
    >)
        requires
            self.wf(),
        ensures
            ({
                let bytes = buffer_pool_initial_size_mb * 0x10_0000;
                let pages = bytes / (self.spec_page_size() as int);
                match db {
                    Ok(db) => bytes <= usize::MAX && 1 <= pages <= MAX_DIRECTORY_SIZE && db.wf() && db.levels() == self.levels() && db.memtable_entries()
                    == self.memtable_entries() && db@
                        == self@ && db.spec_name() == self.spec_name() && db.spec_config() == (Config {
                        buffer_pool_initial_size: pages as usize,
                        ..self.spec_config()
                    }) && db.counts() == self.counts() && db.spec_page_size()
                        == self.spec_page_size(),
                    Err(e) => if bytes > usize::MAX {
                        e == StoreError::TooLarge
                    } else if pages < 1 {
                        e == StoreError::InvalidInput
                    } else {
                        pages > MAX_DIRECTORY_SIZE && e == StoreError::TooLarge
                    },
                }
            }),
    {
        proof {
            self.storage.lemma_page_size();
        }
        let page_size: usize = self.storage.page_size();
        match buffer_pool_initial_size_mb.checked_mul(0x10_0000) {
            Some(bytes) => self.set_buffer_pool_initial_size(bytes / page_size),
            None => Err(StoreError::TooLarge),
        }
    }

    pub fn compaction_policy(&self) -> (policy: CompactionPolicy)
        ensures
            policy == self.spec_config().compaction_policy,
    {
        self.config.compaction_policy
    }

    /// Sets the policy by which levels are compacted from now on.
    pub fn set_compaction_policy(self, compaction_policy: CompactionPolicy) -> (db: Self)
        requires
            self.wf(),
        ensures
            db.wf(),
            db.levels() == self.levels(),
            db.memtable_entries() == self.memtable_entries(),
            db@ == self@,
            db.spec_name() == self.spec_name(),
            db.spec_config() == (Config { compaction_policy, ..self.spec_config() }),
            db.counts() == self.counts(),
            db.spec_page_size() == self.spec_page_size(),
    {
        let config = Config { compaction_policy, ..self.config };
        self.with_config(config)
    }

    pub fn enable_bloom_filter(&self) -> (enabled: bool)
        ensures
            enabled == self.spec_config().enable_bloom_filter,
    {
        self.config.enable_bloom_filter
    }

    /// Says whether runs get Bloom filters, and whether reads ask them.
    pub fn set_enable_bloom_filter(self, enable_bloom_filter: bool) -> (db: Self)
        requires
            self.wf(),
        ensures
            db.wf(),
            db.levels() == self.levels(),
            db.memtable_entries() == self.memtable_entries(),
            db@ == self@,
            db.spec_name() == self.spec_name(),
            db.spec_config() == (Config { enable_bloom_filter, ..self.spec_config() }),
            db.counts() == self.counts(),
            db.spec_page_size() == self.spec_page_size(),
    {
        let config = Config { enable_bloom_filter, ..self.config };
        self.with_config(config)
    }

    pub fn bloom_filter_bits_per_entry(&self) -> (bits: Size)
        ensures
            bits == self.spec_config().bloom_filter_bits_per_entry,
    {
        self.config.bloom_filter_bits_per_entry
    }

    /// Sets the bits that a Bloom filter has for each entry. The filters
    /// of the runs that exist were built for another number of bits, so
    /// they are deleted where the number changes.
    pub fn set_bloom_filter_bits_per_entry(self, bits_per_entry: Size) -> (db: Self)
        requires
            self.wf(),
        ensures
            db.wf(),
            db.levels() == self.levels(),
            db.memtable_entries() == self.memtable_entries(),
            db@ == self@,
            db.spec_name() == self.spec_name(),
            db.spec_config() == (Config {
                bloom_filter_bits_per_entry: bits_per_entry,
                ..self.spec_config()
            }),
            db.counts() == self.counts(),
            db.spec_page_size() == self.spec_page_size(),
    {
        let mut db = self;
        if bits_per_entry == db.config.bloom_filter_bits_per_entry {
            return db;
        }
        let ghost files = db.files();
        let ghost name = db.spec_name();
        let ghost counts = db.counts();
        let levels: usize = db.metadata.entry_counts.len();
        let mut level: usize = 0;
        while level < levels
            invariant
                db.storage.pool_capacity() == self.storage.pool_capacity(),
                db.storage.spec_use_pool() == self.storage.spec_use_pool(),
                db.storage.wf(),
                db.storage.spec_page_size() == self.storage.spec_page_size(),
                db.name == self.name,
                db.config == self.config,
                db.metadata == self.metadata,
                db.memtable == self.memtable,
                self.wf(),
                files == self.files(),
                name == self.spec_name(),
                counts == self.counts(),
                levels == counts.len(),
                0 <= level <= levels,
                forall|l: usize, r: usize|
                    db.storage.files().contains_key(#[trigger] filename::spec_sst_path(name, l, r))
                        == files.contains_key(filename::spec_sst_path(name, l, r))
                        && db.storage.files()[filename::spec_sst_path(name, l, r)]
                        == files[filename::spec_sst_path(name, l, r)],
                forall|l: usize, r: usize|
                    l < level && r < counts[l as int].len() ==> !db.storage.files().contains_key(
                        #[trigger] filename::spec_bloom_filter_path(name, l, r),
                    ),
            decreases levels - level,
        {
            let runs: usize = db.metadata.entry_counts[level].len();
            assert(counts[level as int] == db.metadata.entry_counts@[level as int]@);
            let mut run: usize = 0;
            while run < runs
                invariant
                    db.storage.pool_capacity() == self.storage.pool_capacity(),
                    db.storage.spec_use_pool() == self.storage.spec_use_pool(),
                    db.storage.wf(),
                    db.storage.spec_page_size() == self.storage.spec_page_size(),
                    db.name == self.name,
                    db.config == self.config,
                    db.metadata == self.metadata,
                    db.memtable == self.memtable,
                    name == self.name@,
                    level < counts.len(),
                    runs == counts[level as int].len(),
                    0 <= run <= runs,
                    forall|l: usize, r: usize|
                        db.storage.files().contains_key(
                            #[trigger] filename::spec_sst_path(name, l, r),
                        ) == files.contains_key(filename::spec_sst_path(name, l, r))
                            && db.storage.files()[filename::spec_sst_path(name, l, r)]
                            == files[filename::spec_sst_path(name, l, r)],
                    forall|l: usize, r: usize|
                        l < level && r < counts[l as int].len() ==> !db.storage.files().contains_key(
                            #[trigger] filename::spec_bloom_filter_path(name, l, r),
                        ),
                    forall|r: usize|
                        r < run ==> !db.storage.files().contains_key(
                            #[trigger] filename::spec_bloom_filter_path(name, level, r),
                        ),
                decreases runs - run,
            {
                let path = filename::bloom_filter_path(db.name.as_str(), level, run);
                let ghost before = db.storage.files();
                let removed = db.storage.remove_file(path.as_str());
                proof {
                    assert forall|l: usize, r: usize|
                        db.storage.files().contains_key(
                            #[trigger] filename::spec_sst_path(name, l, r),
                        ) == files.contains_key(filename::spec_sst_path(name, l, r))
                            && db.storage.files()[filename::spec_sst_path(name, l, r)]
                            == files[filename::spec_sst_path(name, l, r)] by {
                        assert(before.contains_key(filename::spec_sst_path(name, l, r))
                            == files.contains_key(filename::spec_sst_path(name, l, r)));
                        if l == level && r == run {
                            lemma_run_files_apart(name, level, run);
                        } else {
                            lemma_runs_apart(name, level, run, l, r);
                        }
                    }
                }
                run += 1;
            }
            level += 1;
        }
        db.config.bloom_filter_bits_per_entry = bits_per_entry;
        proof {
            let after = db.storage.files();
            assert forall|l: usize, r: usize|
                l < counts.len() && r < counts[l as int].len() implies #[trigger] run_ok(
                after,
                name,
                l,
                r,
                counts[l as int][r as int],
            ) by {
                assert(run_ok(files, name, l, r, counts[l as int][r as int]));
                assert(after.contains_key(filename::spec_sst_path(name, l, r)));
            }
            assert(same_runs(files, after, name, counts, 0, counts.len() as int)) by {
                assert forall|l: usize, r: usize|
                    l < counts.len() && r < counts[l as int].len() implies after[#[trigger] filename::spec_sst_path(
                    name,
                    l,
                    r,
                )] == files[filename::spec_sst_path(name, l, r)] by {}
            }
            lemma_disk_layers_frame(files, after, name, counts, counts, 0);
            lemma_levels_frame(files, after, name, counts);
            assert(db.layers() == self.layers());
            assert(db@ =~= self@);
        }
        db
    }

    /// Number of runs of the database.
    pub fn sst_total(&self) -> (total: Size)
        requires
            self.wf(),
        ensures
            total == if total_runs(self.counts(), self.counts().len() as int) < usize::MAX {
                total_runs(self.counts(), self.counts().len() as int)
            } else {
                usize::MAX as int
            },
    {
        let mut total: usize = 0;
        let mut level: usize = 0;
        while level < self.metadata.entry_counts.len()
            invariant
                0 <= level <= self.metadata.entry_counts@.len(),
                total_runs(self.counts(), level as int) >= 0,
                total == if total_runs(self.counts(), level as int) < usize::MAX {
                    total_runs(self.counts(), level as int)
                } else {
                    usize::MAX as int
                },
            decreases self.metadata.entry_counts@.len() - level,
        {
            assert(self.counts()[level as int] == self.metadata.entry_counts@[level as int]@);
            total = total.saturating_add(self.metadata.entry_counts[level].len());
            level += 1;
        }
        total
    }

    /// Forgets the name, the knobs, the memtable and the record of the
    /// runs: the database is closed then. The files stay in the storage.
    pub fn clear(&mut self)
        requires
            old(self).wf(),
        ensures
            final(self).wf(),
            final(self).spec_is_closed(),
            final(self)@ == Map::<Key, Value>::empty(),
            final(self).files() == old(self).files(),
            final(self).spec_page_size() == old(self).spec_page_size(),
            final(self).counts() == seq![Seq::<Size>::empty()],
            final(self).memtable_entries() == Seq::<Entry>::empty(),
            final(self).spec_config() == Config::spec_new(old(self).spec_page_size()),
    {
        proof {
            self.storage.lemma_page_size();
        }
        self.name = String::from_str("");
        self.config = Config::new(self.storage.page_size());
        self.storage.set_pool_capacity(self.config.buffer_pool_capacity);
        self.storage.set_use_pool(self.config.enable_buffer_pool);
        self.metadata = Metadata::new();
        self.memtable.clear();
        proof {
            reveal_strlit("");
            assert(self.counts() =~= seq![Seq::<Size>::empty()]);
            assert forall|key: Key| self.spec_get(key) is None by {
                self.lemma_layers_of_memtable(key);
                reveal_with_fuel(disk_layers, 3);
                reveal_with_fuel(newest_value, 3);
                let disk = disk_layers(self.files(), self.spec_name(), self.counts(), 0);
                assert(level_runs(self.files(), self.spec_name(), 0, 0) =~= Seq::<Seq<Entry>>::empty());
                assert(disk =~= Seq::<Seq<Entry>>::empty());
            }
            assert(self@ =~= Map::<Key, Value>::empty());
        }
    }

    /// Closes the database: the memtable is flushed, and the database
    /// forgets its name, its knobs and the record of its runs; the files
    /// hold the runs as they are after the flush. A closed database stays
    /// closed.
    pub fn close(&mut self)
        requires
            old(self).wf(),
        ensures
            final(self).wf(),
            final(self).spec_is_closed(),
            final(self)@ == Map::<Key, Value>::empty(),
            final(self).spec_page_size() == old(self).spec_page_size(),
            final(self).counts() == seq![Seq::<Size>::empty()],
            final(self).memtable_entries() == Seq::<Entry>::empty(),
            old(self).spec_is_closed() || old(self).memtable_entries().len() == 0 ==> final(self).files()
                == old(self).files(),
            !old(self).spec_is_closed() ==> exists|counts: Seq<Seq<Size>>|
                countable(counts) && counts.len() >= 1 && runs_sound(
                    final(self).files(),
                    old(self).spec_name(),
                    counts,
                ) && #[trigger] level_contents(final(self).files(), old(self).spec_name(), counts)
                    == after_flush(
                    old(self).levels(),
                    old(self).spec_config(),
                    old(self).memtable_entries(),
                ),
    {
        if self.is_closed() {
            self.clear();
            return ;
        }
        self.flush_memtable();
        let ghost stored = self.counts();
        let ghost files = self.files();
        self.clear();
        proof {
            assert(countable(stored) && stored.len() >= 1 && runs_sound(
                files,
                old(self).spec_name(),
                stored,
            ));
            assert(level_contents(self.files(), old(self).spec_name(), stored) == after_flush(
                old(self).levels(),
                old(self).spec_config(),
                old(self).memtable_entries(),
            ));
        }
    }

    /// Whether the knobs `config` can be those of a database.
    pub fn is_valid_config(config: &Config) -> (valid: bool)
        ensures
            valid == valid_config(*config),
    {
        config.memtable_capacity >= 1 && config.buffer_pool_capacity >= 1
            && config.buffer_pool_initial_size >= 1 && config.buffer_pool_initial_size
            <= MAX_DIRECTORY_SIZE
    }

    /// Opens the database that was stored under `name` with the knobs
    /// `config`, whose runs hold the numbers of entries `entry_counts` in
    /// the files of `disk`. Every run is read and checked: the database
    /// opens where the runs are as recorded, and not else. A Bloom filter
    /// that is not the filter of its run is deleted.
    pub fn restore(
        name: &str,
        config: Config,
        entry_counts: Vec<Vec<Size>>,
        disk: Disk,
        page_size: usize,
    ) -> (opened: Result<Database, StoreError>)
        requires
            disk.wf(),
            valid_page_size(page_size),
        ensures
            opened is Ok <==> valid_name(name@) && valid_config(config) && entry_counts@.len() >= 1
                && runs_sound(disk@, name@, counts_view(entry_counts@)),
            match opened {
                Ok(db) => db.wf() && !db.spec_is_closed() && db.spec_name() == name@
                    && db.spec_config() == config && db.counts() == counts_view(entry_counts@)
                    && db.spec_page_size() == page_size && db.memtable_entries() == Seq::<
                    Entry,
                >::empty() && db.layers() == disk_layers(
                    disk@,
                    name@,
                    counts_view(entry_counts@),
                    0,
                ).push(Seq::<Entry>::empty()) && db.levels() == level_contents(
                    disk@,
                    name@,
                    counts_view(entry_counts@),
                ),
                Err(e) => e == if !valid_name(name@) || !valid_config(config) {
                    StoreError::InvalidInput
                } else {
                    StoreError::Corrupt
                },
            },
    {
        if !is_valid_name(name) || !Self::is_valid_config(&config) {
            return Err(StoreError::InvalidInput);
        }
        if entry_counts.len() < 1 {
            return Err(StoreError::Corrupt);
        }
        let mut storage = Storage::from_disk(
            disk,
            page_size,
            config.buffer_pool_initial_size,
            config.buffer_pool_capacity,
            config.enable_buffer_pool,
        );
        let ghost files = disk@;
        let ghost counts = counts_view(entry_counts@);
        let ghost bits = config.bloom_filter_bits_per_entry;
        let levels: usize = entry_counts.len();
        let mut level: usize = 0;
        while level < levels
            invariant
                storage.pool_capacity() == config.buffer_pool_capacity,
                storage.spec_use_pool() == config.enable_buffer_pool,
                storage.wf(),
                storage.spec_page_size() == page_size,
                valid_name(name@),
                valid_config(config),
                bits == config.bloom_filter_bits_per_entry,
                files == disk@,
                counts == counts_view(entry_counts@),
                levels == counts.len(),
                levels >= 1,
                0 <= level <= levels,
                forall|l: int| 0 <= l < level ==> (#[trigger] counts[l]).len() <= usize::MAX,
                forall|l: usize, r: usize|
                    storage.files().contains_key(#[trigger] filename::spec_sst_path(name@, l, r))
                        == files.contains_key(filename::spec_sst_path(name@, l, r))
                        && storage.files()[filename::spec_sst_path(name@, l, r)]
                        == files[filename::spec_sst_path(name@, l, r)],
                forall|l: usize, r: usize|
                    l < level && r < counts[l as int].len() ==> #[trigger] run_ok(
                        files,
                        name@,
                        l,
                        r,
                        counts[l as int][r as int],
                    ),
                forall|l: usize, r: usize|
                    l < level && r < counts[l as int].len() && storage.files().contains_key(
                        #[trigger] filename::spec_bloom_filter_path(name@, l, r),
                    ) ==> bloom_covers(
                        storage.files()[filename::spec_bloom_filter_path(name@, l, r)],
                        bits,
                        entries_from_bytes(files[filename::spec_sst_path(name@, l, r)]),
                    ),
            decreases levels - level,
        {
            let runs: usize = entry_counts[level].len();
            assert(counts[level as int] == entry_counts@[level as int]@);
            let mut run: usize = 0;
            while run < runs
                invariant
                    storage.pool_capacity() == config.buffer_pool_capacity,
                    storage.spec_use_pool() == config.enable_buffer_pool,
                    storage.wf(),
                    storage.spec_page_size() == page_size,
                    valid_name(name@),
                    valid_config(config),
                    bits == config.bloom_filter_bits_per_entry,
                    files == disk@,
                    counts == counts_view(entry_counts@),
                    levels == counts.len(),
                    levels >= 1,
                    0 <= level < levels,
                    forall|l: int| 0 <= l < level ==> (#[trigger] counts[l]).len() <= usize::MAX,
                    runs == counts[level as int].len(),
                    0 <= run <= runs,
                    forall|l: usize, r: usize|
                        storage.files().contains_key(#[trigger] filename::spec_sst_path(name@, l, r))
                            == files.contains_key(filename::spec_sst_path(name@, l, r))
                            && storage.files()[filename::spec_sst_path(name@, l, r)]
                            == files[filename::spec_sst_path(name@, l, r)],
                    forall|l: usize, r: usize|
                        (l < level || (l == level && r < run)) && l < counts.len() && r
                            < counts[l as int].len() ==> #[trigger] run_ok(
                            files,
                            name@,
                            l,
                            r,
                            counts[l as int][r as int],
                        ),
                    forall|l: usize, r: usize|
                        (l < level || (l == level && r < run)) && l < counts.len() && r
                            < counts[l as int].len() && storage.files().contains_key(
                            #[trigger] filename::spec_bloom_filter_path(name@, l, r),
                        ) ==> bloom_covers(
                            storage.files()[filename::spec_bloom_filter_path(name@, l, r)],
                            bits,
                            entries_from_bytes(files[filename::spec_sst_path(name@, l, r)]),
                        ),
                decreases runs - run,
            {
                let num_entries: usize = entry_counts[level][run];
                assert(counts[level as int][run as int] == num_entries);
                let entries = match array_sst::Sst.read(&storage, name, level, run) {
                    Ok(list) => list,
                    Err(_) => {
                        proof {
                            if runs_sound(files, name@, counts) {
                                assert(run_ok(files, name@, level, run, counts[level as int][run as int]));
                            }
                        }
                        return Err(StoreError::Corrupt);
                    },
                };
                if entries.len() != num_entries || !is_strictly_ascending(&entries) {
                    proof {
                        if runs_sound(files, name@, counts) {
                            assert(run_ok(files, name@, level, run, counts[level as int][run as int]));
                        }
                    }
                    return Err(StoreError::Corrupt);
                }
                let bloom_path = filename::bloom_filter_path(name, level, run);
                let ghost before = storage.files();
                let mut keep: bool = false;
                if bitmap_fits(num_entries, config.bloom_filter_bits_per_entry) {
                    match storage.read_file(bloom_path.as_str()) {
                        Ok(stored) => {
                            let filter = BloomFilter::from_entries(
                                &entries,
                                config.bloom_filter_bits_per_entry,
                            );
                            keep = same_bytes(&stored, &filter.bitmap);
                            proof {
                                if keep {
                                    assert(bloom_covers(stored@, bits, entries@));
                                    assert(before[bloom_path@] == stored@);
                                }
                            }
                        },
                        Err(_) => {},
                    }
                }
                proof {
                    assert(entries@ == entries_from_bytes(
                        files[filename::spec_sst_path(name@, level, run)],
                    ));
                    assert(keep ==> before.contains_key(bloom_path@) && bloom_covers(
                        before[bloom_path@],
                        bits,
                        entries@,
                    ));
                }
                if !keep {
                    let removed = storage.remove_file(bloom_path.as_str());
                }
                proof {
                    let after = storage.files();
                    assert forall|l: usize, r: usize|
                        after.contains_key(#[trigger] filename::spec_sst_path(name@, l, r))
                            == files.contains_key(filename::spec_sst_path(name@, l, r))
                            && after[filename::spec_sst_path(name@, l, r)]
                            == files[filename::spec_sst_path(name@, l, r)] by {
                        assert(before.contains_key(filename::spec_sst_path(name@, l, r))
                            == files.contains_key(filename::spec_sst_path(name@, l, r)));
                        if l == level && r == run {
                            lemma_run_files_apart(name@, level, run);
                        } else {
                            lemma_runs_apart(name@, level, run, l, r);
                        }
                    }
                    assert forall|l: usize, r: usize|
                        (l < level || (l == level && r < run + 1)) && l < counts.len() && r
                            < counts[l as int].len() && after.contains_key(
                            #[trigger] filename::spec_bloom_filter_path(name@, l, r),
                        ) implies bloom_covers(
                        after[filename::spec_bloom_filter_path(name@, l, r)],
                        bits,
                        entries_from_bytes(files[filename::spec_sst_path(name@, l, r)]),
                    ) by {
                        if l == level && r == run {
                        } else {
                            lemma_runs_apart(name@, level, run, l, r);
                            assert(before.contains_key(
                                filename::spec_bloom_filter_path(name@, l, r),
                            ));
                        }
                    }
                }
                run += 1;
            }
            level += 1;
        }
        let db = Database {
            name: String::from_str(name),
            config,
            metadata: Metadata { entry_counts },
            memtable: Memtable::new(),
            storage,
        };
        proof {
            let after = db.files();
            assert(countable(counts));
            assert(runs_sound(files, name@, counts));
            assert forall|l: usize, r: usize|
                l < counts.len() && r < counts[l as int].len() implies #[trigger] run_ok(
                after,
                name@,
                l,
                r,
                counts[l as int][r as int],
            ) by {
                assert(run_ok(files, name@, l, r, counts[l as int][r as int]));
                assert(after.contains_key(filename::spec_sst_path(name@, l, r)));
            }
            assert forall|l: usize, r: usize|
                l < counts.len() && r < counts[l as int].len() && after.contains_key(
                    #[trigger] filename::spec_bloom_filter_path(name@, l, r),
                ) implies bloom_covers(
                after[filename::spec_bloom_filter_path(name@, l, r)],
                bits,
                entries_from_bytes(after[filename::spec_sst_path(name@, l, r)]),
            ) by {
                assert(after[filename::spec_sst_path(name@, l, r)] == files[filename::spec_sst_path(
                    name@,
                    l,
                    r,
                )]);
            }
            assert(same_runs(files, after, name@, counts, 0, counts.len() as int)) by {
                assert forall|l: usize, r: usize|
                    l < counts.len() && r < counts[l as int].len() implies after[#[trigger] filename::spec_sst_path(
                    name@,
                    l,
                    r,
                )] == files[filename::spec_sst_path(name@, l, r)] by {}
            }
            lemma_disk_layers_frame(files, after, name@, counts, counts, 0);
            lemma_levels_frame(files, after, name@, counts);
        }
        Ok(db)
    }

    /// What an open database has stored when its memtable is flushed can
    /// be opened again: its name, its knobs and its runs are valid. The
    /// database that is opened from it shows what the other one showed.
    pub proof fn lemma_reopen(&self, stored: Self)
        requires
            stored.wf(),
            !stored.spec_is_closed(),
            stored.memtable_entries() == Seq::<Entry>::empty(),
            self.layers() == disk_layers(stored.files(), stored.spec_name(), stored.counts(), 0).push(
                Seq::<Entry>::empty(),
            ),
        ensures
            valid_name(stored.spec_name()),
            valid_config(stored.spec_config()),
            stored.counts().len() >= 1,
            runs_sound(stored.files(), stored.spec_name(), stored.counts()),
            self@ == stored@,
    {
        assert(self@ =~= stored@);
    }
}

/// The layers on disk of a sound database are in strictly ascending order.
pub proof fn lemma_disk_layers_ascending(
    files: Map<Seq<char>, Seq<u8>>,
    db_name: Seq<char>,
    counts: Seq<Seq<Size>>,
    from_level: int,
)
    requires
        countable(counts),
        runs_sound(files, db_name, counts),
        0 <= from_level,
    ensures
        all_ascending(disk_layers(files, db_name, counts, from_level)),
    decreases counts.len() - from_level,
{
    if from_level < counts.len() {
        lemma_disk_layers_ascending(files, db_name, counts, from_level + 1);
        let deeper = disk_layers(files, db_name, counts, from_level + 1);
        let here = level_runs(files, db_name, from_level as usize, counts[from_level].len());
        let all = deeper + here;
        assert forall|r: int| 0 <= r < all.len() implies strictly_ascending(#[trigger] all[r]) by {
            if r < deeper.len() {
                assert(all[r] == deeper[r]);
            } else {
                let run = (r - deeper.len()) as usize;
                assert(all[r] == here[r - deeper.len()]);
                assert(run_ok(
                    files,
                    db_name,
                    from_level as usize,
                    run,
                    counts[from_level][run as int],
                ));
            }
        }
    }
}

} // verus!