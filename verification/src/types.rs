//! Shared vocabulary: keys, values, entries and the configuration choices.

use vstd::prelude::*;

verus! {

pub type Key = i64;

pub type Value = i64;

pub type Entry = (Key, Value);

/// Lengths and capacities.
pub type Size = usize;

/// Level number of the tree; a lower level holds younger data.
pub type Level = usize;

/// Run number within a level; a higher run is younger.
pub type Run = usize;

/// Page index within a file.
pub type Page = usize;

/// Depth in a static B-tree, the root being at depth 0.
pub type Depth = usize;

/// Index of a node among its siblings at one depth of a static B-tree.
pub type Node = usize;

/// The value that marks a deleted key inside a run.
pub const TOMBSTONE_VALUE: Value = i64::MIN;

/// The key that no entry may carry.
pub const INVALID_KEY: Key = i64::MIN;

#[derive(Clone, Copy, Debug, PartialEq, Eq, Structural)]
pub enum CompactionPolicy {
    /// Flushed runs gather at the first level and are never merged.
    NoCompaction,
    Leveled,
    Tiered,
    Dovstoevsky,
}

#[derive(Clone, Copy, Debug, PartialEq, Eq, Structural)]
pub enum SstImplementation {
    Array,
    Btree,
}

#[derive(Clone, Copy, Debug, PartialEq, Eq, Structural)]
pub enum SstSearchAlgorithm {
    Default,
    BinarySearch,
}

/// Why an operation of the store was refused or could not finish.
#[derive(Clone, Copy, Debug, PartialEq, Eq, Structural)]
pub enum StoreError {
    /// A reserved key or value, an unusable name or a capacity of zero.
    InvalidInput,
    /// A file that the operation needs is not in the store.
    MissingFile,
    /// A file or page whose bytes do not have the expected shape.
    Corrupt,
    /// A size that does not fit the machine's integers.
    TooLarge,
    /// The database is closed.
    Closed,
}

} // verus!
