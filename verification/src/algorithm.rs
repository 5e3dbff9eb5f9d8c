//! Binary searches over ascending arrays.

use crate::types::{Entry, Key, Value};
use vstd::prelude::*;

verus! {

/// The keys never decrease from left to right.
pub open spec fn ascending(keys: Seq<Key>) -> bool {
    forall|i: int, j: int| 0 <= i <= j < keys.len() ==> keys[i] <= keys[j]
}

/// The keys of the entries never decrease from left to right.
pub open spec fn ascending_entries(entries: Seq<Entry>) -> bool {
    forall|i: int, j: int| 0 <= i <= j < entries.len() ==> entries[i].0 <= entries[j].0
}

/// The keys of the entries grow from left to right, so no key occurs twice.
pub open spec fn strictly_ascending(entries: Seq<Entry>) -> bool {
    forall|i: int, j: int| 0 <= i < j < entries.len() ==> entries[i].0 < entries[j].0
}

/// Number of leading keys that are smaller than `value`: the rank of `value`.
pub open spec fn rank_below(keys: Seq<Key>, value: Key, rank: int) -> bool {
    &&& 0 <= rank <= keys.len()
    &&& forall|i: int| 0 <= i < rank ==> keys[i] < value
    &&& forall|i: int| rank <= i < keys.len() ==> keys[i] >= value
}

/// Index of the last key that is not larger than `value`, or -1.
pub open spec fn last_at_most(keys: Seq<Key>, value: Key, index: int) -> bool {
    &&& -1 <= index < keys.len()
    &&& forall|i: int| 0 <= i <= index ==> keys[i] <= value
    &&& forall|i: int| index < i < keys.len() ==> keys[i] > value
}

/// Looks `key` up among entries with ascending keys. Where the key occurs
/// more than once, the value of its last occurrence is returned.
pub fn binary_search_entries(array: &[Entry], key: Key) -> (found: Option<Value>)
    ensures
        ascending_entries(array@) ==> match found {
            Some(value) => exists|i: int|
                0 <= i < array@.len() && #[trigger] array@[i] == (key, value) && forall|j: int|
                    i < j < array@.len() ==> array@[j].0 > key,
            None => forall|i: int| 0 <= i < array@.len() ==> (#[trigger] array@[i]).0 != key,
        },
        found is Some ==> exists|i: int|
            0 <= i < array@.len() && #[trigger] array@[i] == (key, found.unwrap()),
{
    if array.len() == 0 {
        return None;
    }
    let mut left: usize = 0;
    let mut right: usize = array.len() - 1;
    while left != right
        invariant
            0 <= left <= right < array@.len() <= usize::MAX,
            ascending_entries(array@) ==> forall|i: int|
                right < i < array@.len() ==> array@[i].0 > key,
            left == 0 || array@[left as int].0 <= key,
        decreases right - left,
    {
        let middle: usize = left + (right - left + 1) / 2;
        if array[middle].0 > key {
            right = middle - 1;
        } else {
            left = middle;
        }
    }
    if array[left].0 == key {
        let value = array[left].1;
        assert(array@[left as int] == (key, value));
        Some(value)
    } else {
        proof {
            if ascending_entries(array@) {
                assert forall|i: int| 0 <= i < array@.len() implies (#[trigger] array@[i]).0
                    != key by {
                    if i < left {
                        assert(array@[i].0 <= array@[left as int].0);
                        assert(array@[left as int].0 < key);
                    }
                }
            }
        }
        None
    }
}

/// The rank of `value` in an ascending array: how many keys are smaller.
pub fn binary_search_leftmost(array: &[Key], value: Key) -> (rank: usize)
    ensures
        rank <= array@.len(),
        ascending(array@) ==> rank_below(array@, value, rank as int),
{
    let mut left: usize = 0;
    let mut right: usize = array.len();
    while left < right
        invariant
            0 <= left <= right <= array@.len(),
            ascending(array@) ==> forall|i: int| 0 <= i < left ==> array@[i] < value,
            ascending(array@) ==> forall|i: int| right <= i < array@.len() ==> array@[i] >= value,
        decreases right - left,
    {
        let middle: usize = left + (right - left) / 2;
        if array[middle] < value {
            left = middle + 1;
        } else {
            right = middle;
        }
    }
    left
}

/// Index of the last key of an ascending array that is not larger than
/// `value`; -1 where every key is larger.
pub fn binary_search_rightmost(array: &[Key], value: Key) -> (index: i64)
    requires
        array@.len() <= i64::MAX,
    ensures
        -1 <= index < array@.len(),
        ascending(array@) ==> last_at_most(array@, value, index as int),
{
    let mut left: usize = 0;
    let mut right: usize = array.len();
    while left < right
        invariant
            0 <= left <= right <= array@.len(),
            ascending(array@) ==> forall|i: int| 0 <= i < left ==> array@[i] <= value,
            ascending(array@) ==> forall|i: int| right <= i < array@.len() ==> array@[i] > value,
        decreases right - left,
    {
        let middle: usize = left + (right - left) / 2;
        if array[middle] > value {
            right = middle;
        } else {
            left = middle + 1;
        }
    }
    if right == 0 {
        -1
    } else {
        (right - 1) as i64
    }
}

/// Both searches agree on where `value` would stand: the rank counts the
/// keys below it, the rightmost index ends the keys up to it.
pub proof fn lemma_rank_is_unique(keys: Seq<Key>, value: Key, a: int, b: int)
    requires
        rank_below(keys, value, a),
        rank_below(keys, value, b),
    ensures
        a == b,
{
    if a < b {
        assert(keys[a] >= value);
        assert(keys[a] < value);
    } else if b < a {
        assert(keys[b] >= value);
        assert(keys[b] < value);
    }
}

/// Entries of which each has a smaller key than the next are in strictly
/// ascending order.
pub proof fn lemma_neighbours_ascending(entries: Seq<Entry>)
    requires
        forall|x: int| 0 <= x && x + 1 < entries.len() ==> (#[trigger] entries[x]).0 < entries[x + 1].0,
    ensures
        strictly_ascending(entries),
    decreases entries.len(),
{
    if entries.len() > 1 {
        let front = entries.drop_last();
        assert forall|x: int| 0 <= x && x + 1 < front.len() implies (#[trigger] front[x]).0 < front[x
            + 1].0 by {
            assert(front[x] == entries[x]);
            assert(front[x + 1] == entries[x + 1]);
        }
        lemma_neighbours_ascending(front);
        assert forall|i: int, j: int| 0 <= i < j < entries.len() implies entries[i].0 < entries[j].0 by {
            let last = entries.len() - 1;
            if j < last {
                assert(front[i].0 < front[j].0);
            } else {
                assert(entries[last - 1].0 < entries[last].0);
                if i < last - 1 {
                    assert(front[i].0 < front[last - 1].0);
                }
            }
        }
    }
}

} // verus!
