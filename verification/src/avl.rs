//! An AVL tree from keys to values: a binary search tree in which every
//! node records its height, and which rotates its nodes to stay balanced
//! when entries are inserted and deleted.

use crate::algorithm::strictly_ascending;
use crate::sst_util::{holds_key, in_range, lemma_in_range_is_window, lemma_lookup_at, lookup};
use crate::types::{Entry, Key, Value};
use vstd::prelude::*;

verus! {

#[derive(Debug, PartialEq)]
pub struct AvlNode {
    pub key: Key,
    pub value: Value,
    pub height: usize,
    pub left: Option<Box<AvlNode>>,
    pub right: Option<Box<AvlNode>>,
}

/// The entries of a subtree from left to right.
pub open spec fn inorder_of(link: Option<Box<AvlNode>>) -> Seq<Entry>
    decreases link,
{
    match link {
        None => Seq::empty(),
        Some(node) => inorder_of(node.left) + seq![(node.key, node.value)] + inorder_of(node.right),
    }
}

/// The height of a subtree: that of a single node is 0, that of no node -1.
pub open spec fn real_height(link: Option<Box<AvlNode>>) -> int
    decreases link,
{
    match link {
        None => -1,
        Some(node) => {
            let left = real_height(node.left);
            let right = real_height(node.right);
            1 + if left > right {
                left
            } else {
                right
            }
        },
    }
}

/// Every node of the subtree records its height.
pub open spec fn heights_ok(link: Option<Box<AvlNode>>) -> bool
    decreases link,
{
    match link {
        None => true,
        Some(node) => node.height == real_height(link) && heights_ok(node.left) && heights_ok(
            node.right,
        ),
    }
}

/// In every node of the subtree the heights of the two subtrees differ by
/// one at most.
pub open spec fn balanced(link: Option<Box<AvlNode>>) -> bool
    decreases link,
{
    match link {
        None => true,
        Some(node) => {
            let tilt = real_height(node.right) - real_height(node.left);
            balanced(node.left) && balanced(node.right) && -1 <= tilt <= 1
        },
    }
}

/// `entries` with `key` set to `value`: in place of the entry that carried
/// `key`, or at the place that keeps ascending entries in order.
pub open spec fn upsert(entries: Seq<Entry>, key: Key, value: Value) -> Seq<Entry>
    decreases entries.len(),
{
    if entries.len() == 0 {
        seq![(key, value)]
    } else if entries.last().0 < key {
        entries.push((key, value))
    } else if entries.last().0 == key {
        entries.drop_last().push((key, value))
    } else {
        upsert(entries.drop_last(), key, value).push(entries.last())
    }
}

/// `entries` without the entries that carry `key`.
pub open spec fn without(entries: Seq<Entry>, key: Key) -> Seq<Entry>
    decreases entries.len(),
{
    if entries.len() == 0 {
        entries
    } else if entries.last().0 == key {
        without(entries.drop_last(), key)
    } else {
        without(entries.drop_last(), key).push(entries.last())
    }
}

/// What holds of a node holds of the subtree under it.
pub proof fn lemma_node_link(node: AvlNode)
    ensures
        real_height(Some(Box::new(node))) == node.true_height(),
        balanced(Some(Box::new(node))) == node.is_balanced(),
        heights_ok(Some(Box::new(node))) == node.recorded(),
        inorder_of(Some(Box::new(node))) == node.entries(),
        node.true_height() >= 0,
{
    lemma_height_bound(node.left);
    lemma_height_bound(node.right);
}

/// A subtree has more nodes than its height.
pub proof fn lemma_height_bound(link: Option<Box<AvlNode>>)
    ensures
        -1 <= real_height(link) < inorder_of(link).len(),
    decreases link,
{
    match link {
        None => {},
        Some(node) => {
            lemma_height_bound(node.left);
            lemma_height_bound(node.right);
        },
    }
}

/// Setting a key that is below the entry in the middle changes the part on
/// the left alone.
pub proof fn lemma_upsert_left(left: Seq<Entry>, middle: Entry, right: Seq<Entry>, key: Key, value: Value)
    requires
        strictly_ascending(left + seq![middle] + right),
        key < middle.0,
    ensures
        upsert(left + seq![middle] + right, key, value) == upsert(left, key, value) + seq![middle]
            + right,
    decreases right.len(),
{
    let all = left + seq![middle] + right;
    if right.len() == 0 {
        assert(all =~= left.push(middle));
        assert(all.drop_last() =~= left);
        assert(upsert(left, key, value).push(middle) =~= upsert(left, key, value) + seq![middle]
            + right);
    } else {
        let shorter = right.drop_last();
        assert(all.drop_last() =~= left + seq![middle] + shorter);
        assert(all.last() == right.last());
        assert(all[left.len() as int] == middle);
        assert(middle.0 < all[all.len() - 1].0);
        assert(strictly_ascending(all.drop_last())) by {
            assert forall|i: int, j: int| 0 <= i < j < all.drop_last().len() implies all.drop_last()[i].0
                < all.drop_last()[j].0 by {
                assert(all.drop_last()[i] == all[i]);
                assert(all.drop_last()[j] == all[j]);
            }
        }
        lemma_upsert_left(left, middle, shorter, key, value);
        assert((upsert(left, key, value) + seq![middle] + shorter).push(right.last()) =~= upsert(
            left,
            key,
            value,
        ) + seq![middle] + right);
    }
}

/// Setting a key that is above the entry in the middle changes the part on
/// the right alone.
pub proof fn lemma_upsert_right(left: Seq<Entry>, middle: Entry, right: Seq<Entry>, key: Key, value: Value)
    requires
        key > middle.0,
    ensures
        upsert(left + seq![middle] + right, key, value) == left + seq![middle] + upsert(
            right,
            key,
            value,
        ),
    decreases right.len(),
{
    let all = left + seq![middle] + right;
    if right.len() == 0 {
        assert(all =~= left.push(middle));
        assert(all.push((key, value)) =~= left + seq![middle] + upsert(right, key, value));
    } else {
        let shorter = right.drop_last();
        assert(all.drop_last() =~= left + seq![middle] + shorter);
        assert(all.last() == right.last());
        if right.last().0 < key {
            assert(all.push((key, value)) =~= left + seq![middle] + right.push((key, value)));
        } else if right.last().0 == key {
            assert(all.drop_last().push((key, value)) =~= left + seq![middle] + shorter.push(
                (key, value),
            ));
        } else {
            lemma_upsert_right(left, middle, shorter, key, value);
            assert((left + seq![middle] + upsert(shorter, key, value)).push(right.last()) =~= left
                + seq![middle] + upsert(shorter, key, value).push(right.last()));
        }
    }
}

/// Setting the key of the entry in the middle replaces that entry.
pub proof fn lemma_upsert_middle(left: Seq<Entry>, middle: Entry, right: Seq<Entry>, value: Value)
    requires
        strictly_ascending(left + seq![middle] + right),
    ensures
        upsert(left + seq![middle] + right, middle.0, value) == left + seq![(middle.0, value)]
            + right,
    decreases right.len(),
{
    let key = middle.0;
    let all = left + seq![middle] + right;
    if right.len() == 0 {
        assert(all =~= left.push(middle));
        assert(all.drop_last() =~= left);
        assert(left.push((key, value)) =~= left + seq![(key, value)] + right);
    } else {
        let shorter = right.drop_last();
        assert(all.drop_last() =~= left + seq![middle] + shorter);
        assert(all.last() == right.last());
        assert(all[left.len() as int] == middle);
        assert(middle.0 < all[all.len() - 1].0);
        assert(strictly_ascending(all.drop_last())) by {
            assert forall|i: int, j: int| 0 <= i < j < all.drop_last().len() implies all.drop_last()[i].0
                < all.drop_last()[j].0 by {
                assert(all.drop_last()[i] == all[i]);
                assert(all.drop_last()[j] == all[j]);
            }
        }
        lemma_upsert_middle(left, middle, shorter, value);
        assert((left + seq![(key, value)] + shorter).push(right.last()) =~= left + seq![
            (key, value),
        ] + right);
    }
}

/// Setting a key keeps ascending entries in order and keeps every entry of
/// another key; the entry of the key is the only new one.
#[verifier::rlimit(60)]
#[verifier::spinoff_prover]
pub proof fn lemma_upsert_entries(entries: Seq<Entry>, key: Key, value: Value)
    requires
        strictly_ascending(entries),
    ensures
        strictly_ascending(upsert(entries, key, value)),
        upsert(entries, key, value).len() == entries.len() + (if holds_key(entries, key) {
            0int
        } else {
            1int
        }),
        forall|i: int|
            0 <= i < upsert(entries, key, value).len() ==> (#[trigger] upsert(entries, key, value)[i])
                == (key, value) || entries.contains(upsert(entries, key, value)[i]),
        forall|i: int|
            0 <= i < entries.len() && (#[trigger] entries[i]).0 != key ==> upsert(
                entries,
                key,
                value,
            ).contains(entries[i]),
        upsert(entries, key, value).contains((key, value)),
    decreases entries.len(),
{
    let after = upsert(entries, key, value);
    if entries.len() == 0 {
        assert(after[0] == (key, value));
        assert(!holds_key(entries, key));
    } else {
        let front = entries.drop_last();
        let last = entries.last();
        assert(strictly_ascending(front)) by {
            assert forall|i: int, j: int| 0 <= i < j < front.len() implies front[i].0 < front[j].0 by {
                assert(front[i] == entries[i]);
                assert(front[j] == entries[j]);
            }
        }
        if last.0 < key {
            assert forall|i: int, j: int| 0 <= i < j < after.len() implies after[i].0 < after[j].0 by {
                if j == after.len() - 1 {
                    if i < entries.len() - 1 {
                        assert(entries[i].0 < entries[entries.len() - 1].0);
                    }
                } else {
                    assert(entries[i].0 < entries[j].0);
                }
            }
            assert(!holds_key(entries, key)) by {
                if holds_key(entries, key) {
                    let i = choose|i: int| 0 <= i < entries.len() && (#[trigger] entries[i]).0 == key;
                    if i < entries.len() - 1 {
                        assert(entries[i].0 < entries[entries.len() - 1].0);
                    }
                }
            }
            assert(after[after.len() - 1] == (key, value));
            assert forall|i: int| 0 <= i < entries.len() implies after.contains(
                #[trigger] entries[i],
            ) by {
                assert(after[i] == entries[i]);
            }
            assert forall|i: int| 0 <= i < after.len() implies (#[trigger] after[i]) == (key, value)
                || entries.contains(after[i]) by {
                if i < entries.len() {
                    assert(entries[i] == after[i]);
                }
            }
        } else if last.0 == key {
            assert(holds_key(entries, key));
            assert(after =~= front.push((key, value)));
            assert forall|i: int, j: int| 0 <= i < j < after.len() implies after[i].0 < after[j].0 by {
                assert(entries[i].0 < entries[j].0);
            }
            assert(after[after.len() - 1] == (key, value));
            assert forall|i: int| 0 <= i < entries.len() && (#[trigger] entries[i]).0
                != key implies after.contains(entries[i]) by {
                assert(after[i] == entries[i]);
            }
            assert forall|i: int| 0 <= i < after.len() implies (#[trigger] after[i]) == (key, value)
                || entries.contains(after[i]) by {
                if i < entries.len() - 1 {
                    assert(entries[i] == after[i]);
                }
            }
        } else {
            lemma_upsert_entries(front, key, value);
            let inner = upsert(front, key, value);
            assert(after == inner.push(last));
            assert forall|i: int| 0 <= i < inner.len() implies (#[trigger] inner[i]).0 < last.0 by {
                if inner[i] == (key, value) {
                } else {
                    assert(front.contains(inner[i]));
                    let x = choose|x: int| 0 <= x < front.len() && front[x] == inner[i];
                    assert(entries[x].0 < entries[entries.len() - 1].0);
                }
            }
            assert forall|i: int, j: int| 0 <= i < j < after.len() implies after[i].0 < after[j].0 by {
                if j == after.len() - 1 {
                    assert(after[i] == inner[i]);
                } else {
                    assert(inner[i].0 < inner[j].0);
                }
            }
            assert(holds_key(entries, key) == holds_key(front, key)) by {
                if holds_key(entries, key) {
                    let i = choose|i: int| 0 <= i < entries.len() && (#[trigger] entries[i]).0 == key;
                    assert(front[i].0 == key);
                }
                if holds_key(front, key) {
                    let i = choose|i: int| 0 <= i < front.len() && (#[trigger] front[i]).0 == key;
                    assert(entries[i].0 == key);
                }
            }
            assert(inner.contains((key, value)));
            let at = choose|x: int| 0 <= x < inner.len() && inner[x] == (key, value);
            assert(after[at] == (key, value));
            assert forall|i: int| 0 <= i < entries.len() && (#[trigger] entries[i]).0
                != key implies after.contains(entries[i]) by {
                if i < entries.len() - 1 {
                    assert(front[i] == entries[i]);
                    assert(inner.contains(front[i]));
                    let x = choose|x: int| 0 <= x < inner.len() && inner[x] == front[i];
                    assert(after[x] == entries[i]);
                } else {
                    assert(after[after.len() - 1] == entries[i]);
                }
            }
            assert forall|i: int| 0 <= i < after.len() implies (#[trigger] after[i]) == (key, value)
                || entries.contains(after[i]) by {
                if i < inner.len() {
                    assert(after[i] == inner[i]);
                    if inner[i] != (key, value) {
                        assert(front.contains(inner[i]));
                        let x = choose|x: int| 0 <= x < front.len() && front[x] == inner[i];
                        assert(entries[x] == after[i]);
                    }
                } else {
                    assert(entries[entries.len() - 1] == after[i]);
                }
            }
        }
    }
}

/// Setting a key keeps ascending entries in order; the key then has the
/// value, and every other key has the value that it had.
pub proof fn lemma_upsert(entries: Seq<Entry>, key: Key, value: Value)
    requires
        strictly_ascending(entries),
    ensures
        strictly_ascending(upsert(entries, key, value)),
        upsert(entries, key, value).len() == entries.len() + (if holds_key(entries, key) {
            0int
        } else {
            1int
        }),
        lookup(upsert(entries, key, value), key) == Some(value),
        forall|other: Key|
            other != key ==> #[trigger] lookup(upsert(entries, key, value), other) == lookup(
                entries,
                other,
            ),
{
    let after = upsert(entries, key, value);
    lemma_upsert_entries(entries, key, value);
    // The values of the keys follow from where the entries went.
    assert(after.contains((key, value)));
    let at = choose|x: int| 0 <= x < after.len() && after[x] == (key, value);
    lemma_lookup_at(after, at);
    assert forall|other: Key| other != key implies #[trigger] lookup(after, other) == lookup(
        entries,
        other,
    ) by {
        if holds_key(entries, other) {
            let i = choose|i: int| 0 <= i < entries.len() && (#[trigger] entries[i]).0 == other;
            lemma_lookup_at(entries, i);
            assert(after.contains(entries[i]));
            let x = choose|x: int| 0 <= x < after.len() && after[x] == entries[i];
            lemma_lookup_at(after, x);
        } else {
            if holds_key(after, other) {
                let x = choose|x: int| 0 <= x < after.len() && (#[trigger] after[x]).0 == other;
                assert(entries.contains(after[x]));
                let i = choose|i: int| 0 <= i < entries.len() && entries[i] == after[x];
                assert(entries[i].0 == other);
            }
        }
    }
}

/// Among ascending entries around a middle one, a key below the middle is
/// looked up on the left, a key above it on the right.
pub proof fn lemma_lookup_split(left: Seq<Entry>, middle: Entry, right: Seq<Entry>, key: Key)
    requires
        strictly_ascending(left + seq![middle] + right),
    ensures
        strictly_ascending(left),
        strictly_ascending(right),
        forall|i: int| 0 <= i < left.len() ==> (#[trigger] left[i]).0 < middle.0,
        forall|i: int| 0 <= i < right.len() ==> (#[trigger] right[i]).0 > middle.0,
        key == middle.0 ==> lookup(left + seq![middle] + right, key) == Some(middle.1),
        key < middle.0 ==> lookup(left + seq![middle] + right, key) == lookup(left, key),
        key > middle.0 ==> lookup(left + seq![middle] + right, key) == lookup(right, key),
{
    let all = left + seq![middle] + right;
    let at = left.len() as int;
    assert(all[at] == middle);
    assert forall|i: int| 0 <= i < left.len() implies (#[trigger] left[i]).0 < middle.0 by {
        assert(all[i] == left[i]);
        assert(all[i].0 < all[at].0);
    }
    assert forall|i: int| 0 <= i < right.len() implies (#[trigger] right[i]).0 > middle.0 by {
        assert(all[at + 1 + i] == right[i]);
        assert(all[at].0 < all[at + 1 + i].0);
    }
    assert forall|i: int, j: int| 0 <= i < j < left.len() implies left[i].0 < left[j].0 by {
        assert(all[i] == left[i]);
        assert(all[j] == left[j]);
    }
    assert forall|i: int, j: int| 0 <= i < j < right.len() implies right[i].0 < right[j].0 by {
        assert(all[at + 1 + i] == right[i]);
        assert(all[at + 1 + j] == right[j]);
    }
    if key == middle.0 {
        lemma_lookup_at(all, at);
    } else if key < middle.0 {
        if holds_key(left, key) {
            let i = choose|i: int| 0 <= i < left.len() && (#[trigger] left[i]).0 == key;
            lemma_lookup_at(left, i);
            assert(all[i] == left[i]);
            lemma_lookup_at(all, i);
        } else {
            if holds_key(all, key) {
                let x = choose|x: int| 0 <= x < all.len() && (#[trigger] all[x]).0 == key;
                if x < at {
                    assert(left[x].0 == key);
                } else if x > at {
                    assert(right[x - at - 1].0 == key);
                }
            }
        }
    } else {
        if holds_key(right, key) {
            let i = choose|i: int| 0 <= i < right.len() && (#[trigger] right[i]).0 == key;
            lemma_lookup_at(right, i);
            assert(all[at + 1 + i] == right[i]);
            lemma_lookup_at(all, at + 1 + i);
        } else {
            if holds_key(all, key) {
                let x = choose|x: int| 0 <= x < all.len() && (#[trigger] all[x]).0 == key;
                if x < at {
                    assert(left[x].0 == key);
                } else if x > at {
                    assert(right[x - at - 1].0 == key);
                }
            }
        }
    }
}

/// Where no entry carries the key, nothing is taken away.
pub proof fn lemma_without_absent(entries: Seq<Entry>, key: Key)
    requires
        !holds_key(entries, key),
    ensures
        without(entries, key) == entries,
    decreases entries.len(),
{
    if entries.len() > 0 {
        let front = entries.drop_last();
        assert(entries[entries.len() - 1].0 != key);
        assert(!holds_key(front, key)) by {
            if holds_key(front, key) {
                let i = choose|i: int| 0 <= i < front.len() && (#[trigger] front[i]).0 == key;
                assert(entries[i].0 == key);
            }
        }
        lemma_without_absent(front, key);
        assert(front.push(entries.last()) =~= entries);
    }
}

/// Taking a key away from two sequences in a row is taking it away from each.
pub proof fn lemma_without_concat(a: Seq<Entry>, b: Seq<Entry>, key: Key)
    ensures
        without(a + b, key) == without(a, key) + without(b, key),
    decreases b.len(),
{
    if b.len() == 0 {
        assert(a + b =~= a);
        assert(without(a, key) + without(b, key) =~= without(a, key));
    } else {
        assert((a + b).drop_last() =~= a + b.drop_last());
        assert((a + b).last() == b.last());
        lemma_without_concat(a, b.drop_last(), key);
        if b.last().0 != key {
            assert((without(a, key) + without(b.drop_last(), key)).push(b.last()) =~= without(a, key)
                + without(b.drop_last(), key).push(b.last()));
        }
    }
}

/// Among ascending entries, taking away the key of the entry at `index`
/// takes away that entry and no other.
pub proof fn lemma_without_at(entries: Seq<Entry>, index: int)
    requires
        strictly_ascending(entries),
        0 <= index < entries.len(),
    ensures
        without(entries, entries[index].0) == entries.remove(index),
        strictly_ascending(entries.remove(index)),
        !holds_key(entries.remove(index), entries[index].0),
{
    let key = entries[index].0;
    let before = entries.take(index);
    let after = entries.skip(index + 1);
    assert(entries =~= before + seq![entries[index]] + after);
    lemma_without_concat(before + seq![entries[index]], after, key);
    lemma_without_concat(before, seq![entries[index]], key);
    assert(!holds_key(before, key)) by {
        if holds_key(before, key) {
            let i = choose|i: int| 0 <= i < before.len() && (#[trigger] before[i]).0 == key;
            assert(entries[i].0 < entries[index].0);
        }
    }
    assert(!holds_key(after, key)) by {
        if holds_key(after, key) {
            let i = choose|i: int| 0 <= i < after.len() && (#[trigger] after[i]).0 == key;
            assert(entries[index].0 < entries[index + 1 + i].0);
        }
    }
    lemma_without_absent(before, key);
    lemma_without_absent(after, key);
    let single = seq![entries[index]];
    assert(single.drop_last() =~= Seq::<Entry>::empty());
    reveal_with_fuel(without, 3);
    assert(without(single, key) =~= Seq::<Entry>::empty());
    assert(before + Seq::<Entry>::empty() + after =~= entries.remove(index));
    let rest = entries.remove(index);
    assert forall|i: int, j: int| 0 <= i < j < rest.len() implies rest[i].0 < rest[j].0 by {
        let x = if i < index { i } else { i + 1 };
        let y = if j < index { j } else { j + 1 };
        assert(rest[i] == entries[x]);
        assert(rest[j] == entries[y]);
    }
    assert(!holds_key(rest, key)) by {
        if holds_key(rest, key) {
            let i = choose|i: int| 0 <= i < rest.len() && (#[trigger] rest[i]).0 == key;
            let x = if i < index { i } else { i + 1 };
            assert(rest[i] == entries[x]);
            if x < index {
                assert(entries[x].0 < entries[index].0);
            } else {
                assert(entries[index].0 < entries[x].0);
            }
        }
    }
}

/// Taking a key away keeps ascending entries in order; the key is gone
/// then, and every other key has the value that it had.
pub proof fn lemma_without(entries: Seq<Entry>, key: Key)
    requires
        strictly_ascending(entries),
    ensures
        strictly_ascending(without(entries, key)),
        without(entries, key).len() == entries.len() - (if holds_key(entries, key) {
            1int
        } else {
            0int
        }),
        lookup(without(entries, key), key) is None,
        forall|other: Key|
            other != key ==> #[trigger] lookup(without(entries, key), other) == lookup(entries, other),
{
    let after = without(entries, key);
    if holds_key(entries, key) {
        let index = choose|i: int| 0 <= i < entries.len() && (#[trigger] entries[i]).0 == key;
        lemma_without_at(entries, index);
        assert forall|other: Key| other != key implies #[trigger] lookup(after, other) == lookup(
            entries,
            other,
        ) by {
            if holds_key(entries, other) {
                let i = choose|i: int| 0 <= i < entries.len() && (#[trigger] entries[i]).0 == other;
                lemma_lookup_at(entries, i);
                let x = if i < index { i } else { i - 1 };
                assert(after[x] == entries[i]);
                lemma_lookup_at(after, x);
            } else {
                if holds_key(after, other) {
                    let x = choose|x: int| 0 <= x < after.len() && (#[trigger] after[x]).0 == other;
                    let i = if x < index { x } else { x + 1 };
                    assert(entries[i].0 == other);
                }
            }
        }
    } else {
        lemma_without_absent(entries, key);
    }
}

/// Among ascending entries around a middle one, the entries in `[lo, hi]`
/// are those on the left, the middle one if it lies in the interval, and
/// those on the right. No entry on the left lies in the interval when the
/// middle one is not above `lo`, and none on the right when it is not below
/// `hi`.
pub proof fn lemma_in_range_split(
    left: Seq<Entry>,
    middle: Entry,
    right: Seq<Entry>,
    lo: Key,
    hi: Key,
)
    requires
        strictly_ascending(left + seq![middle] + right),
    ensures
        in_range(left + seq![middle] + right, lo, hi) == in_range(left, lo, hi) + (if lo
            <= middle.0 <= hi {
            seq![middle]
        } else {
            Seq::<Entry>::empty()
        }) + in_range(right, lo, hi),
        lo >= middle.0 ==> in_range(left, lo, hi) == Seq::<Entry>::empty(),
        middle.0 >= hi ==> in_range(right, lo, hi) == Seq::<Entry>::empty(),
{
    let pred = |entry: Entry| lo <= entry.0 <= hi;
    let single = seq![middle];
    lemma_lookup_split(left, middle, right, lo);
    Seq::filter_distributes_over_add(left + single, right, pred);
    Seq::filter_distributes_over_add(left, single, pred);
    assert(single.drop_last() =~= Seq::<Entry>::empty());
    assert(single.filter(pred) =~= if lo <= middle.0 <= hi {
        single
    } else {
        Seq::<Entry>::empty()
    }) by {
        reveal_with_fuel(Seq::filter, 3);
    }
    if lo >= middle.0 {
        lemma_in_range_is_window(left, lo, hi, left.len() as int, left.len() as int);
        assert(left.subrange(left.len() as int, left.len() as int) =~= Seq::<Entry>::empty());
    }
    if middle.0 >= hi {
        lemma_in_range_is_window(right, lo, hi, 0, 0);
        assert(right.subrange(0, 0) =~= Seq::<Entry>::empty());
    }
}

impl AvlNode {
    /// The entries of the node and its subtrees from left to right.
    pub open spec fn entries(&self) -> Seq<Entry> {
        inorder_of(self.left) + seq![(self.key, self.value)] + inorder_of(self.right)
    }

    /// The height of the node over its subtrees.
    pub open spec fn true_height(&self) -> int {
        let left = real_height(self.left);
        let right = real_height(self.right);
        1 + if left > right {
            left
        } else {
            right
        }
    }

    /// Height of the right subtree less that of the left.
    pub open spec fn tilt(&self) -> int {
        real_height(self.right) - real_height(self.left)
    }

    /// The subtrees are balanced, and their heights differ by one at most.
    pub open spec fn is_balanced(&self) -> bool {
        balanced(self.left) && balanced(self.right) && -1 <= self.tilt() <= 1
    }

    /// The node and every node below it record their heights.
    pub open spec fn recorded(&self) -> bool {
        self.height == self.true_height() && heights_ok(self.left) && heights_ok(self.right)
    }

    /// A node without children.
    pub fn new(key: Key, value: Value) -> (node: AvlNode)
        ensures
            node.key == key,
            node.value == value,
            node.height == 0,
            node.left is None,
            node.right is None,
            node.recorded(),
            node.entries() == seq![(key, value)],
    {
        let node = AvlNode { key, value, height: 0, right: None, left: None };
        assert(node.entries() =~= seq![(key, value)]);
        node
    }

    pub fn key(&self) -> (key: Key)
        ensures
            key == self.key,
    {
        self.key
    }

    pub fn value(&self) -> (value: Value)
        ensures
            value == self.value,
    {
        self.value
    }

    pub fn height(&self) -> (height: usize)
        ensures
            height == self.height,
    {
        self.height
    }

    /// Height of the right subtree less that of the left, a missing
    /// subtree counting as -1; cut off at 2 and at -2.
    pub fn balance(&self) -> (balance: i32)
        requires
            heights_ok(self.left),
            heights_ok(self.right),
        ensures
            -2 <= balance <= 2,
            ({
                let tilt = real_height(self.right) - real_height(self.left);
                balance == if tilt > 2 {
                    2
                } else if tilt < -2 {
                    -2
                } else {
                    tilt
                }
            }),
    {
        // Heights counted from one, so that no subtree counts as zero.
        let l_height: u128 = match &self.left {
            Some(left) => left.height() as u128 + 1,
            None => 0,
        };
        let r_height: u128 = match &self.right {
            Some(right) => right.height() as u128 + 1,
            None => 0,
        };
        if r_height >= l_height {
            let tilt = r_height - l_height;
            if tilt > 2 {
                2
            } else {
                tilt as i32
            }
        } else {
            let tilt = l_height - r_height;
            if tilt > 2 {
                -2
            } else {
                -(tilt as i32)
            }
        }
    }

    /// Records the height of the node over the heights that its children
    /// record.
    pub fn recalc_height(&mut self)
        requires
            heights_ok(old(self).left),
            heights_ok(old(self).right),
            old(self).true_height() <= usize::MAX,
        ensures
            final(self).key == old(self).key,
            final(self).value == old(self).value,
            final(self).left == old(self).left,
            final(self).right == old(self).right,
            final(self).recorded(),
    {
        let l_height: usize = match &self.left {
            Some(left) => left.height(),
            None => 0,
        };
        let r_height: usize = match &self.right {
            Some(right) => right.height(),
            None => 0,
        };
        if self.left.is_none() && self.right.is_none() {
            self.height = 0;
        } else {
            self.height = 1 + if l_height > r_height {
                l_height
            } else {
                r_height
            };
        }
    }

    /// Makes the right child the root of the subtree, and the node its left
    /// child.
    pub fn rotate_left(&mut self)
        requires
            old(self).right is Some,
            old(self).recorded(),
            old(self).entries().len() <= usize::MAX,
        ensures
            final(self).entries() == old(self).entries(),
            final(self).recorded(),
            final(self).key == old(self).right.unwrap().key,
            final(self).value == old(self).right.unwrap().value,
            final(self).left is Some,
            final(self).left.unwrap().left == old(self).left,
            final(self).left.unwrap().right == old(self).right.unwrap().left,
            final(self).right == old(self).right.unwrap().right,
    {
        proof {
            lemma_height_bound(old(self).left);
            lemma_height_bound(old(self).right);
            lemma_height_bound(old(self).right.unwrap().left);
            lemma_height_bound(old(self).right.unwrap().right);
        }
        let mut subtree = self.right.take().unwrap();
        self.right = subtree.left.take();
        self.recalc_height();
        std::mem::swap(self, &mut *subtree);
        self.left = Some(subtree);
        proof {
            assert(self.entries() =~= old(self).entries());
            lemma_height_bound(self.left);
        }
        self.recalc_height();
    }

    /// Makes the left child the root of the subtree, and the node its right
    /// child.
    pub fn rotate_right(&mut self)
        requires
            old(self).left is Some,
            old(self).recorded(),
            old(self).entries().len() <= usize::MAX,
        ensures
            final(self).entries() == old(self).entries(),
            final(self).recorded(),
            final(self).key == old(self).left.unwrap().key,
            final(self).value == old(self).left.unwrap().value,
            final(self).right is Some,
            final(self).right.unwrap().right == old(self).right,
            final(self).right.unwrap().left == old(self).left.unwrap().right,
            final(self).left == old(self).left.unwrap().left,
    {
        proof {
            lemma_height_bound(old(self).left);
            lemma_height_bound(old(self).right);
            lemma_height_bound(old(self).left.unwrap().left);
            lemma_height_bound(old(self).left.unwrap().right);
        }
        let mut subtree = self.left.take().unwrap();
        self.left = subtree.right.take();
        self.recalc_height();
        std::mem::swap(self, &mut *subtree);
        self.right = Some(subtree);
        proof {
            assert(self.entries() =~= old(self).entries());
            lemma_height_bound(self.right);
        }
        self.recalc_height();
    }

    /// Rotates the left child to the left, then the node to the right.
    pub fn rotate_left_right(&mut self)
        requires
            old(self).left is Some,
            old(self).left.unwrap().right is Some,
            old(self).recorded(),
            old(self).entries().len() <= usize::MAX,
        ensures
            final(self).entries() == old(self).entries(),
            final(self).recorded(),
            final(self).left is Some,
            final(self).right is Some,
            final(self).left.unwrap().left == old(self).left.unwrap().left,
            final(self).left.unwrap().right == old(self).left.unwrap().right.unwrap().left,
            final(self).right.unwrap().left == old(self).left.unwrap().right.unwrap().right,
            final(self).right.unwrap().right == old(self).right,
    {
        let ghost left_before = inorder_of(self.left);
        match &mut self.left {
            Some(left) => {
                assert(left.entries() =~= left_before);
                left.rotate_left();
            },
            None => {},
        }
        proof {
            assert(inorder_of(self.left) =~= left_before);
            lemma_height_bound(self.left);
            lemma_height_bound(self.right);
        }
        self.recalc_height();
        self.rotate_right();
    }

    /// Rotates the right child to the right, then the node to the left.
    pub fn rotate_right_left(&mut self)
        requires
            old(self).right is Some,
            old(self).right.unwrap().left is Some,
            old(self).recorded(),
            old(self).entries().len() <= usize::MAX,
        ensures
            final(self).entries() == old(self).entries(),
            final(self).recorded(),
            final(self).left is Some,
            final(self).right is Some,
            final(self).left.unwrap().left == old(self).left,
            final(self).left.unwrap().right == old(self).right.unwrap().left.unwrap().left,
            final(self).right.unwrap().left == old(self).right.unwrap().left.unwrap().right,
            final(self).right.unwrap().right == old(self).right.unwrap().right,
    {
        let ghost right_before = inorder_of(self.right);
        match &mut self.right {
            Some(right) => {
                assert(right.entries() =~= right_before);
                right.rotate_right();
            },
            None => {},
        }
        proof {
            assert(inorder_of(self.right) =~= right_before);
            lemma_height_bound(self.left);
            lemma_height_bound(self.right);
        }
        self.recalc_height();
        self.rotate_left();
    }

    /// Records the height of the node and, where one subtree is higher than
    /// the other by more than one, rotates the subtree back into balance.
    pub fn rebalance(&mut self)
        requires
            heights_ok(old(self).left),
            heights_ok(old(self).right),
            old(self).entries().len() <= usize::MAX,
        ensures
            final(self).entries() == old(self).entries(),
            final(self).recorded(),
            -1 <= old(self).tilt() <= 1 ==> final(self).left == old(self).left && final(self).right
                == old(self).right && final(self).key == old(self).key && final(self).value == old(self).value,
            balanced(old(self).left) && balanced(old(self).right) && -2 <= old(self).tilt() <= 2
                ==> final(self).is_balanced() && old(self).true_height() - 1 <= final(self).true_height() <= old(self).true_height(),
    {
        reveal_with_fuel(real_height, 4);
        reveal_with_fuel(balanced, 4);
        proof {
            lemma_height_bound(self.left);
            lemma_height_bound(self.right);
        }
        self.recalc_height();
        let balance = self.balance();
        if balance < -1 {
            let straight: bool = match &self.left {
                Some(left) => left.balance() <= 0,
                None => true,
            };
            if straight {
                self.rotate_right();
            } else {
                self.rotate_left_right();
            }
        } else if balance > 1 {
            let straight: bool = match &self.right {
                Some(right) => right.balance() >= 0,
                None => true,
            };
            if straight {
                self.rotate_left();
            } else {
                self.rotate_right_left();
            }
        }
    }
}

#[derive(Debug, PartialEq)]
pub struct AvlTree {
    pub root: Option<Box<AvlNode>>,
    pub len: usize,
}

impl AvlTree {
    /// The entries of the tree in ascending order of their keys.
    pub open spec fn entries(&self) -> Seq<Entry> {
        inorder_of(self.root)
    }

    /// The tree is a balanced search tree whose nodes record their heights,
    /// and it records the number of its entries.
    pub open spec fn wf(&self) -> bool {
        &&& strictly_ascending(self.entries())
        &&& heights_ok(self.root)
        &&& balanced(self.root)
        &&& self.len == self.entries().len()
    }

    /// An empty tree.
    pub fn new() -> (tree: AvlTree)
        ensures
            tree.wf(),
            tree.entries() == Seq::<Entry>::empty(),
    {
        AvlTree { root: None, len: 0 }
    }

    /// Number of entries.
    pub fn len(&self) -> (len: usize)
        ensures
            len == self.len,
    {
        self.len
    }

    /// Sets `key` to `value` in the subtree; says whether the key is new.
    pub fn insert_recursive(subtree: &mut Box<AvlNode>, key: Key, value: Value) -> (added: bool)
        requires
            strictly_ascending(old(subtree).entries()),
            old(subtree).recorded(),
            old(subtree).is_balanced(),
            old(subtree).entries().len() < usize::MAX,
        ensures
            final(subtree).entries() == upsert(old(subtree).entries(), key, value),
            final(subtree).recorded(),
            final(subtree).is_balanced(),
            old(subtree).true_height() <= final(subtree).true_height() <= old(subtree).true_height()
                + 1,
            added == !holds_key(old(subtree).entries(), key),
        decreases old(subtree).entries().len(),
    {
        let ghost left_part = inorder_of(subtree.left);
        let ghost right_part = inorder_of(subtree.right);
        let ghost middle = (subtree.key, subtree.value);
        proof {
            lemma_lookup_split(left_part, middle, right_part, key);
            lemma_height_bound(subtree.left);
            lemma_height_bound(subtree.right);
        }
        let ghost left_height = real_height(subtree.left);
        let ghost right_height = real_height(subtree.right);
        if subtree.key == key {
            subtree.value = value;
            proof {
                lemma_upsert_middle(left_part, middle, right_part, value);
                assert(old(subtree).entries()[left_part.len() as int] == middle);
            }
            return false;
        }
        if key < subtree.key {
            proof {
                lemma_upsert_left(left_part, middle, right_part, key, value);
                lemma_upsert(left_part, key, value);
            }
            let other_is_none: bool = subtree.right.is_none();
            match &mut subtree.left {
                None => {
                    if other_is_none {
                        subtree.height += 1;
                    }
                    subtree.left = Some(Box::new(AvlNode::new(key, value)));
                    proof {
                        assert(inorder_of(subtree.left) =~= seq![(key, value)]);
                        assert(upsert(left_part, key, value) =~= seq![(key, value)]);
                        lemma_node_link(*subtree.left.unwrap());
                        if old(subtree).right is Some {
                            lemma_node_link(*old(subtree).right.unwrap());
                        }
                    }
                    true
                },
                Some(node) => {
                    assert(node.entries() =~= left_part);
                    proof {
                        lemma_node_link(**node);
                    }
                    let has_added_node = Self::insert_recursive(node, key, value);
                    proof {
                        lemma_node_link(*subtree.left.unwrap());
                        assert(inorder_of(subtree.left) =~= upsert(left_part, key, value));
                        assert(left_height <= real_height(subtree.left) <= left_height + 1);
                        assert(real_height(subtree.right) == right_height);
                    }
                    subtree.rebalance();
                    has_added_node
                },
            }
        } else {
            proof {
                lemma_upsert_right(left_part, middle, right_part, key, value);
                lemma_upsert(right_part, key, value);
            }
            let other_is_none: bool = subtree.left.is_none();
            match &mut subtree.right {
                None => {
                    if other_is_none {
                        subtree.height += 1;
                    }
                    subtree.right = Some(Box::new(AvlNode::new(key, value)));
                    proof {
                        assert(inorder_of(subtree.right) =~= seq![(key, value)]);
                        assert(upsert(right_part, key, value) =~= seq![(key, value)]);
                        lemma_node_link(*subtree.right.unwrap());
                        if old(subtree).left is Some {
                            lemma_node_link(*old(subtree).left.unwrap());
                        }
                    }
                    true
                },
                Some(node) => {
                    assert(node.entries() =~= right_part);
                    proof {
                        lemma_node_link(**node);
                    }
                    let has_added_node = Self::insert_recursive(node, key, value);
                    proof {
                        lemma_node_link(*subtree.right.unwrap());
                        assert(inorder_of(subtree.right) =~= upsert(right_part, key, value));
                        assert(right_height <= real_height(subtree.right) <= right_height + 1);
                        assert(real_height(subtree.left) == left_height);
                    }
                    subtree.rebalance();
                    has_added_node
                },
            }
        }
    }

    /// Sets `key` to `value`.
    pub fn insert(&mut self, key: Key, value: Value)
        requires
            old(self).wf(),
            old(self).len < usize::MAX,
        ensures
            final(self).wf(),
            final(self).entries() == upsert(old(self).entries(), key, value),
    {
        proof {
            lemma_upsert(self.entries(), key, value);
        }
        match &mut self.root {
            Some(root) => {
                assert(root.entries() =~= old(self).entries());
                proof {
                    lemma_node_link(**root);
                }
                let increased_size = Self::insert_recursive(root, key, value);
                if increased_size {
                    self.len += 1;
                }
                proof {
                    lemma_node_link(*self.root.unwrap());
                }
            },
            None => {
                self.root = Some(Box::new(AvlNode::new(key, value)));
                self.len += 1;
                proof {
                    assert(self.entries() =~= seq![(key, value)]);
                    lemma_node_link(*self.root.unwrap());
                }
            },
        }
    }

    /// The node of the subtree that carries `key`, if there is one.
    pub fn search_node_recursive(subtree: &AvlNode, key: Key) -> (found: Option<&AvlNode>)
        requires
            strictly_ascending(subtree.entries()),
        ensures
            match found {
                Some(node) => node.key == key && lookup(subtree.entries(), key) == Some(node.value),
                None => lookup(subtree.entries(), key) is None,
            },
        decreases subtree.entries().len(),
    {
        proof {
            lemma_lookup_split(
                inorder_of(subtree.left),
                (subtree.key, subtree.value),
                inorder_of(subtree.right),
                key,
            );
        }
        if subtree.key == key {
            return Some(subtree);
        }
        let next_node = if key < subtree.key {
            &subtree.left
        } else {
            &subtree.right
        };
        match next_node {
            Some(node) => {
                assert(node.entries() =~= inorder_of(*next_node));
                Self::search_node_recursive(node, key)
            },
            None => None,
        }
    }

    /// The value of `key`, if the tree holds the key.
    pub fn search(&self, key: Key) -> (found: Option<Value>)
        requires
            self.wf(),
        ensures
            found == lookup(self.entries(), key),
    {
        match &self.root {
            Some(root) => {
                assert(root.entries() =~= self.entries());
                match Self::search_node_recursive(root, key) {
                    Some(node) => Some(node.value()),
                    None => None,
                }
            },
            None => None,
        }
    }

    /// Adds the entries of a subtree to `out`, from left to right.
    pub fn collect(link: &Option<Box<AvlNode>>, out: &mut Vec<Entry>)
        ensures
            final(out)@ == old(out)@ + inorder_of(*link),
        decreases inorder_of(*link).len(),
    {
        match link {
            Some(node) => {
                Self::collect(&node.left, out);
                out.push((node.key, node.value));
                Self::collect(&node.right, out);
                assert(out@ =~= old(out)@ + inorder_of(*link));
            },
            None => {
                assert(old(out)@ + inorder_of(*link) =~= old(out)@);
            },
        }
    }

    /// The entries of the tree in ascending order of their keys.
    pub fn to_vec(&self) -> (entries: Vec<Entry>)
        ensures
            entries@ == self.entries(),
    {
        let mut entries: Vec<Entry> = Vec::new();
        Self::collect(&self.root, &mut entries);
        assert(Seq::<Entry>::empty() + self.entries() =~= self.entries());
        entries
    }

    /// Adds to `out` the entries of a subtree whose keys lie in `[lo, hi]`,
    /// from left to right. Subtrees that lie outside the interval are not
    /// entered.
    pub fn collect_range(link: &Option<Box<AvlNode>>, lo: Key, hi: Key, out: &mut Vec<Entry>)
        requires
            strictly_ascending(inorder_of(*link)),
        ensures
            final(out)@ == old(out)@ + in_range(inorder_of(*link), lo, hi),
        decreases inorder_of(*link).len(),
    {
        match link {
            Some(node) => {
                let ghost left_part = inorder_of(node.left);
                let ghost right_part = inorder_of(node.right);
                let ghost middle = (node.key, node.value);
                proof {
                    lemma_lookup_split(left_part, middle, right_part, lo);
                    lemma_in_range_split(left_part, middle, right_part, lo, hi);
                }
                if lo < node.key {
                    Self::collect_range(&node.left, lo, hi, out);
                }
                let ghost after_left = out@;
                assert(after_left == old(out)@ + in_range(left_part, lo, hi));
                if lo <= node.key && node.key <= hi {
                    out.push((node.key, node.value));
                }
                let ghost after_middle = out@;
                if node.key < hi {
                    Self::collect_range(&node.right, lo, hi, out);
                }
                proof {
                    let kept = if lo <= middle.0 <= hi {
                        seq![middle]
                    } else {
                        Seq::<Entry>::empty()
                    };
                    assert(after_middle =~= after_left + kept);
                    assert(out@ == after_middle + in_range(right_part, lo, hi));
                    assert(out@ =~= old(out)@ + (in_range(left_part, lo, hi) + kept + in_range(
                        right_part,
                        lo,
                        hi,
                    )));
                }
            },
            None => {
                proof {
                    lemma_in_range_is_window(inorder_of(*link), lo, hi, 0, 0);
                    assert(inorder_of(*link).subrange(0, 0) =~= Seq::<Entry>::empty());
                    assert(old(out)@ + Seq::<Entry>::empty() =~= old(out)@);
                }
            },
        }
    }

    /// The entries of the tree whose keys lie in `[lo, hi]`, in ascending
    /// order.
    pub fn range(&self, lo: Key, hi: Key) -> (entries: Vec<Entry>)
        requires
            self.wf(),
        ensures
            entries@ == in_range(self.entries(), lo, hi),
    {
        let mut entries: Vec<Entry> = Vec::new();
        Self::collect_range(&self.root, lo, hi, &mut entries);
        assert(Seq::<Entry>::empty() + in_range(self.entries(), lo, hi) =~= in_range(
            self.entries(),
            lo,
            hi,
        ));
        entries
    }

    /// Takes the node with the smallest key out of the subtree.
    pub fn take_min_node(subtree: &mut Option<Box<AvlNode>>) -> (min: Option<Box<AvlNode>>)
        requires
            heights_ok(*old(subtree)),
            balanced(*old(subtree)),
            inorder_of(*old(subtree)).len() <= usize::MAX,
        ensures
            heights_ok(*final(subtree)),
            balanced(*final(subtree)),
            real_height(*old(subtree)) - 1 <= real_height(*final(subtree)) <= real_height(
                *old(subtree),
            ),
            match min {
                Some(node) => inorder_of(*old(subtree)).len() > 0 && (node.key, node.value)
                    == inorder_of(*old(subtree))[0] && inorder_of(*final(subtree)) == inorder_of(
                    *old(subtree),
                ).drop_first() && node.left is None && node.right is None,
                None => *old(subtree) is None && *final(subtree) is None,
            },
        decreases inorder_of(*old(subtree)).len(),
    {
        match subtree.take() {
            Some(mut node) => {
                let ghost left_part = inorder_of(node.left);
                let ghost right_part = inorder_of(node.right);
                let ghost middle = (node.key, node.value);
                let ghost before = node;
                proof {
                    lemma_node_link(*old(subtree).unwrap());
                }
                match Self::take_min_node(&mut node.left) {
                    Some(smaller_subtree) => {
                        let ghost shrunk = node;
                        node.rebalance();
                        proof {
                            assert(node.entries() =~= (left_part + seq![middle] + right_part).drop_first());
                            lemma_node_link(*node);
                            assert(shrunk.right == before.right);
                            assert(before.true_height() - 1 <= shrunk.true_height()
                                <= before.true_height());
                        }
                        *subtree = Some(node);
                        Some(smaller_subtree)
                    },
                    None => {
                        *subtree = node.right.take();
                        proof {
                            assert(left_part =~= Seq::<Entry>::empty());
                            assert(right_part =~= (left_part + seq![middle] + right_part).drop_first());
                            assert(before.left is None);
                        }
                        Some(node)
                    },
                }
            },
            None => None,
        }
    }

    /// Takes the node that carries `key` out of the subtree. Returns the
    /// root of what is left and the node that was taken out; the subtree
    /// itself is left empty.
    pub fn delete_node_recursive(subtree: &mut Option<Box<AvlNode>>, key: Key) -> (parts: (
        Option<Box<AvlNode>>,
        Option<Box<AvlNode>>,
    ))
        requires
            strictly_ascending(inorder_of(*old(subtree))),
            heights_ok(*old(subtree)),
            balanced(*old(subtree)),
            inorder_of(*old(subtree)).len() <= usize::MAX,
        ensures
            *final(subtree) is None,
            inorder_of(parts.0) == without(inorder_of(*old(subtree)), key),
            heights_ok(parts.0),
            balanced(parts.0),
            real_height(*old(subtree)) - 1 <= real_height(parts.0) <= real_height(*old(subtree)),
            match parts.1 {
                Some(node) => node.key == key && lookup(inorder_of(*old(subtree)), key) == Some(
                    node.value,
                ),
                None => !holds_key(inorder_of(*old(subtree)), key) && parts.0 == *old(subtree),
            },
        decreases inorder_of(*old(subtree)).len(),
    {
        match subtree.take() {
            Some(mut root) => {
                let ghost before = root;
                proof {
                    lemma_node_link(*old(subtree).unwrap());
                }
                let ghost left_part = inorder_of(root.left);
                let ghost right_part = inorder_of(root.right);
                let ghost middle = (root.key, root.value);
                let ghost all = left_part + seq![middle] + right_part;
                proof {
                    lemma_lookup_split(left_part, middle, right_part, key);
                    lemma_without_concat(left_part + seq![middle], right_part, key);
                    lemma_without_concat(left_part, seq![middle], key);
                    reveal_with_fuel(without, 3);
                    assert(seq![middle].drop_last() =~= Seq::<Entry>::empty());
                    assert(without(seq![middle], key) =~= if middle.0 == key {
                        Seq::<Entry>::empty()
                    } else {
                        seq![middle]
                    });
                    lemma_without(left_part, key);
                    lemma_without(right_part, key);
                }
                if key < root.key {
                    let (replacement, removed) = Self::delete_node_recursive(&mut root.left, key);
                    root.left = replacement;
                    let ghost shrunk = root;
                    proof {
                        assert(shrunk.right == before.right);
                        assert(real_height(before.left) - 1 <= real_height(shrunk.left) <= real_height(
                            before.left,
                        ));
                        assert(!holds_key(right_part, key)) by {
                            if holds_key(right_part, key) {
                                let i = choose|i: int|
                                    0 <= i < right_part.len() && (#[trigger] right_part[i]).0 == key;
                            }
                        }
                        lemma_without_absent(right_part, key);
                    }
                    if removed.is_some() {
                        root.rebalance();
                    }
                    proof {
                        lemma_node_link(*root);
                    }
                    (Some(root), removed)
                } else if key > root.key {
                    let (replacement, removed) = Self::delete_node_recursive(&mut root.right, key);
                    root.right = replacement;
                    let ghost shrunk = root;
                    proof {
                        assert(shrunk.left == before.left);
                        assert(real_height(before.right) - 1 <= real_height(shrunk.right)
                            <= real_height(before.right));
                        assert(!holds_key(left_part, key)) by {
                            if holds_key(left_part, key) {
                                let i = choose|i: int|
                                    0 <= i < left_part.len() && (#[trigger] left_part[i]).0 == key;
                            }
                        }
                        lemma_without_absent(left_part, key);
                    }
                    if removed.is_some() {
                        root.rebalance();
                    }
                    proof {
                        lemma_node_link(*root);
                    }
                    (Some(root), removed)
                } else {
                    proof {
                        assert(!holds_key(left_part, key)) by {
                            if holds_key(left_part, key) {
                                let i = choose|i: int|
                                    0 <= i < left_part.len() && (#[trigger] left_part[i]).0 == key;
                            }
                        }
                        assert(!holds_key(right_part, key)) by {
                            if holds_key(right_part, key) {
                                let i = choose|i: int|
                                    0 <= i < right_part.len() && (#[trigger] right_part[i]).0 == key;
                            }
                        }
                        lemma_without_absent(left_part, key);
                        lemma_without_absent(right_part, key);
                        assert(without(all, key) =~= left_part + right_part);
                    }
                    if root.left.is_none() && root.right.is_none() {
                        proof {
                            assert(left_part + right_part =~= Seq::<Entry>::empty());
                        }
                        (None, Some(root))
                    } else if root.left.is_some() && root.right.is_some() {
                        match Self::take_min_node(&mut root.right) {
                            Some(mut replacement_node) => {
                                replacement_node.left = root.left.take();
                                replacement_node.right = root.right.take();
                                let ghost joined = replacement_node;
                                proof {
                                    assert(replacement_node.entries() =~= left_part + right_part);
                                    assert(joined.left == before.left);
                                    assert(real_height(before.right) - 1 <= real_height(joined.right)
                                        <= real_height(before.right));
                                }
                                replacement_node.rebalance();
                                proof {
                                    lemma_node_link(*replacement_node);
                                }
                                (Some(replacement_node), Some(root))
                            },
                            None => {
                                proof {
                                    assert(false);
                                }
                                (None, Some(root))
                            },
                        }
                    } else {
                        let replacement_option = if root.left.is_some() {
                            root.left.take()
                        } else {
                            root.right.take()
                        };
                        proof {
                            assert(inorder_of(replacement_option) =~= left_part + right_part);
                            lemma_height_bound(before.left);
                            lemma_height_bound(before.right);
                        }
                        (replacement_option, Some(root))
                    }
                }
            },
            None => (None, None),
        }
    }

    /// Takes the node that carries `key` out of the tree.
    pub fn delete_node(&mut self, key: Key) -> (removed: Option<Box<AvlNode>>)
        requires
            old(self).wf(),
        ensures
            final(self).wf(),
            final(self).entries() == without(old(self).entries(), key),
            match removed {
                Some(node) => node.key == key && lookup(old(self).entries(), key) == Some(node.value),
                None => !holds_key(old(self).entries(), key) && *final(self) == *old(self),
            },
            removed is Some ==> final(self).len == old(self).len - 1,
    {
        proof {
            lemma_without(self.entries(), key);
        }
        let (new_root, removed_node) = Self::delete_node_recursive(&mut self.root, key);
        if removed_node.is_some() {
            self.len -= 1;
        }
        self.root = new_root;
        removed_node
    }

    /// Takes `key` out of the tree and returns the value that it had. A
    /// tree that does not hold the key stays as it is.
    pub fn delete(&mut self, key: Key) -> (removed: Option<Value>)
        requires
            old(self).wf(),
        ensures
            final(self).wf(),
            final(self).entries() == without(old(self).entries(), key),
            removed == lookup(old(self).entries(), key),
            removed is None ==> *final(self) == *old(self),
            removed is Some ==> final(self).len == old(self).len - 1,
    {
        match self.delete_node(key) {
            Some(node) => Some(node.value()),
            None => None,
        }
    }
}

} // verus!
