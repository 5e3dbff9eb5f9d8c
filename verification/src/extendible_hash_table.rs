//! A hash table whose directory doubles and whose buckets split as they
//! fill up. Every bucket keeps its elements in order of last use, the least
//! recently used one at the front, and carries a flag that says whether it
//! was used since the flag was last cleared.

use std::collections::hash_map::DefaultHasher;
use std::collections::VecDeque;
use std::hash::Hasher;
use vstd::bytes::{spec_u32_to_le_bytes, u32_to_le_bytes};
use vstd::prelude::*;
use vstd::std_specs::hash::DefaultHasherAdditionalSpecFns;

verus! {

/// A key of the table: it is told apart from other keys by its view, and
/// its hash depends on its view alone.
pub trait TableKey: View + Sized {
    /// The hash of the key with view `id`.
    spec fn spec_hash(id: Self::V) -> u64;

    fn hash_code(&self) -> (hash: u64)
        ensures
            hash == Self::spec_hash(self@),
    ;

    fn same_key(&self, other: &Self) -> (same: bool)
        ensures
            same == (self@ == other@),
    ;

    fn duplicate(&self) -> (copy: Self)
        ensures
            copy@ == self@,
    ;
}

/// A value of the table: it can be copied out.
pub trait TableValue: View + Sized {
    fn duplicate(&self) -> (copy: Self)
        ensures
            copy@ == self@,
    ;
}

impl TableKey for i32 {
    open spec fn spec_hash(id: i32) -> u64 {
        DefaultHasher::spec_finish(seq![spec_u32_to_le_bytes(id as u32)])
    }

    fn hash_code(&self) -> (hash: u64) {
        let mut hasher = DefaultHasher::new();
        let bytes = u32_to_le_bytes(#[verifier::truncate] (*self as u32));
        hasher.write(bytes.as_slice());
        assert(hasher@ =~= seq![spec_u32_to_le_bytes(*self as u32)]);
        hasher.finish()
    }

    fn same_key(&self, other: &Self) -> (same: bool) {
        *self == *other
    }

    fn duplicate(&self) -> (copy: Self) {
        *self
    }
}

impl TableValue for i32 {
    fn duplicate(&self) -> (copy: Self) {
        *self
    }
}

impl TableValue for Vec<u8> {
    fn duplicate(&self) -> (copy: Self) {
        let copy = self.clone();
        assert(copy@ =~= self@);
        copy
    }
}

/// Some element of `elements` has the key with view `id`.
pub open spec fn has_key<K: TableKey, V: TableValue>(elements: Seq<(K, V)>, id: K::V) -> bool {
    exists|j: int| 0 <= j < elements.len() && (#[trigger] elements[j]).0@ == id
}

/// No two elements have the same key.
pub open spec fn distinct_keys<K: TableKey, V: TableValue>(elements: Seq<(K, V)>) -> bool {
    forall|i: int, j: int|
        0 <= i < j < elements.len() ==> (#[trigger] elements[i]).0@ != (#[trigger] elements[j]).0@
}

/// `after` is the queue `before` with `element` put at its back: in
/// place of the element that had its key where the key is not new
/// (`added` is false).
pub open spec fn requeued<K: TableKey, V: TableValue>(
    before: Seq<(K, V)>,
    after: Seq<(K, V)>,
    element: (K, V),
    added: bool,
) -> bool {
    if added {
        after == before.push(element)
    } else {
        exists|i: int|
            0 <= i < before.len() && (#[trigger] before[i]).0@ == element.0@ && after
                == before.remove(i).push(element)
    }
}

pub struct Bucket<K: TableKey, V: TableValue> {
    bucket_id: usize,
    local_depth: usize,
    elements: VecDeque<(K, V)>,
    capacity: usize,
    access_bit: bool,
}

impl<K: TableKey, V: TableValue> Bucket<K, V> {
    pub closed spec fn elements(&self) -> Seq<(K, V)> {
        self.elements@
    }

    pub closed spec fn spec_local_depth(&self) -> usize {
        self.local_depth
    }

    pub closed spec fn spec_capacity(&self) -> usize {
        self.capacity
    }

    pub closed spec fn spec_bucket_id(&self) -> usize {
        self.bucket_id
    }

    pub closed spec fn spec_accessed(&self) -> bool {
        self.access_bit
    }

    /// An empty bucket, marked as used.
    pub fn new(capacity: usize, local_depth: usize, bucket_id: usize) -> (bucket: Self)
        ensures
            bucket.elements() == Seq::<(K, V)>::empty(),
            bucket.spec_local_depth() == local_depth,
            bucket.spec_capacity() == capacity,
            bucket.spec_bucket_id() == bucket_id,
            bucket.spec_accessed(),
    {
        Bucket { local_depth, capacity, bucket_id, elements: VecDeque::new(), access_bit: true }
    }

    /// Position of the element with the key of `key`, if there is one.
    pub fn position(&self, key: &K) -> (found: Option<usize>)
        ensures
            match found {
                Some(index) => index < self.elements().len() && self.elements()[index as int].0@
                    == key@ && forall|j: int|
                    0 <= j < index ==> (#[trigger] self.elements()[j]).0@ != key@,
                None => !has_key(self.elements(), key@),
            },
    {
        let mut index: usize = 0;
        while index < self.elements.len()
            invariant
                0 <= index <= self.elements@.len(),
                forall|j: int| 0 <= j < index ==> (#[trigger] self.elements@[j]).0@ != key@,
            decreases self.elements@.len() - index,
        {
            if self.elements[index].0.same_key(key) {
                return Some(index);
            }
            index += 1;
        }
        None
    }

    /// Puts `element` at the back, in place of the element that had its key
    /// if there was one, and whatever the capacity. Says whether the key is new.
    pub fn add_element_ignore(&mut self, element: (K, V)) -> (added: bool)
        ensures
            final(self).spec_accessed(),
            final(self).spec_local_depth() == old(self).spec_local_depth(),
            final(self).spec_capacity() == old(self).spec_capacity(),
            final(self).spec_bucket_id() == old(self).spec_bucket_id(),
            added == !has_key(old(self).elements(), element.0@),
            added ==> final(self).elements() == old(self).elements().push(element),
            !added ==> exists|i: int|
                0 <= i < old(self).elements().len() && (#[trigger] old(self).elements()[i]).0@
                    == element.0@ && final(self).elements() == old(self).elements().remove(i).push(
                    element,
                ),
    {
        self.access_bit = true;
        match self.position(&element.0) {
            Some(index) => {
                let removed = self.elements.remove(index);
                self.elements.push_back(element);
                proof {
                    let i = index as int;
                    assert(old(self).elements()[i].0@ == element.0@);
                    assert(self.elements() == old(self).elements().remove(i).push(element));
                }
                false
            },
            None => {
                self.elements.push_back(element);
                true
            },
        }
    }

    /// Like `add_element_ignore`, but a new key is refused by a full bucket.
    pub fn add_element(&mut self, element: (K, V)) -> (added: bool)
        ensures
            final(self).spec_accessed(),
            final(self).spec_local_depth() == old(self).spec_local_depth(),
            final(self).spec_capacity() == old(self).spec_capacity(),
            final(self).spec_bucket_id() == old(self).spec_bucket_id(),
            added == (!has_key(old(self).elements(), element.0@) && old(self).elements().len()
                < old(self).spec_capacity()),
            added ==> final(self).elements() == old(self).elements().push(element),
            has_key(old(self).elements(), element.0@) ==> exists|i: int|
                0 <= i < old(self).elements().len() && (#[trigger] old(self).elements()[i]).0@
                    == element.0@ && final(self).elements() == old(self).elements().remove(i).push(
                    element,
                ),
            !added && !has_key(old(self).elements(), element.0@) ==> final(self).elements() == old(
                self,
            ).elements(),
    {
        self.access_bit = true;
        match self.position(&element.0) {
            Some(index) => {
                let removed = self.elements.remove(index);
                self.elements.push_back(element);
                proof {
                    let i = index as int;
                    assert(old(self).elements()[i].0@ == element.0@);
                    assert(self.elements() == old(self).elements().remove(i).push(element));
                }
                false
            },
            None => {
                if !self.is_full() {
                    self.elements.push_back(element);
                    true
                } else {
                    false
                }
            },
        }
    }

    /// Takes out the element at `index`, if there is one.
    pub fn remove_element(&mut self, index: usize) -> (removed: Option<(K, V)>)
        ensures
            final(self).spec_accessed() == old(self).spec_accessed(),
            final(self).spec_local_depth() == old(self).spec_local_depth(),
            final(self).spec_capacity() == old(self).spec_capacity(),
            final(self).spec_bucket_id() == old(self).spec_bucket_id(),
            match removed {
                Some(element) => index < old(self).elements().len() && element == old(
                    self,
                ).elements()[index as int] && final(self).elements() == old(self).elements().remove(
                    index as int,
                ),
                None => index >= old(self).elements().len() && final(self).elements() == old(
                    self,
                ).elements(),
            },
    {
        if index < self.elements.len() {
            self.elements.remove(index)
        } else {
            None
        }
    }

    /// Looks up `key`, marks the bucket as used and moves the element that
    /// was found to the back. Returns a copy of the element.
    pub fn get_item(&mut self, key: &K) -> (found: Option<(K, V)>)
        ensures
            final(self).spec_accessed(),
            final(self).spec_local_depth() == old(self).spec_local_depth(),
            final(self).spec_capacity() == old(self).spec_capacity(),
            final(self).spec_bucket_id() == old(self).spec_bucket_id(),
            match found {
                Some(copy) => exists|i: int|
                    0 <= i < old(self).elements().len() && (#[trigger] old(self).elements()[i]).0@
                        == key@ && copy.0@ == key@ && copy.1@ == old(self).elements()[i].1@
                        && final(self).elements() == old(self).elements().remove(i).push(
                        old(self).elements()[i],
                    ) && forall|j: int| 0 <= j < i ==> (#[trigger] old(self).elements()[j]).0@ != key@,
                None => !has_key(old(self).elements(), key@) && final(self).elements() == old(
                    self,
                ).elements(),
            },
    {
        self.access_bit = true;
        match self.position(key) {
            Some(index) => {
                let copy = (self.elements[index].0.duplicate(), self.elements[index].1.duplicate());
                match self.elements.remove(index) {
                    Some(element) => {
                        self.elements.push_back(element);
                    },
                    None => {},
                }
                proof {
                    let i = index as int;
                    assert(old(self).elements()[i].0@ == key@);
                    assert(self.elements() == old(self).elements().remove(i).push(
                        old(self).elements()[i],
                    ));
                }
                Some(copy)
            },
            None => None,
        }
    }

    pub fn get_local_depth(&self) -> (depth: usize)
        ensures
            depth == self.spec_local_depth(),
    {
        self.local_depth
    }

    pub fn get_elements(&self) -> (elements: &VecDeque<(K, V)>)
        ensures
            elements@ == self.elements(),
    {
        &self.elements
    }

    pub fn is_full(&self) -> (full: bool)
        ensures
            full == (self.elements().len() >= self.spec_capacity()),
    {
        self.get_size() >= self.capacity
    }

    pub fn get_size(&self) -> (size: usize)
        ensures
            size == self.elements().len(),
    {
        self.elements.len()
    }

    pub fn get_capacity(&self) -> (capacity: usize)
        ensures
            capacity == self.spec_capacity(),
    {
        self.capacity
    }

    pub fn get_bucket_id(&self) -> (id: usize)
        ensures
            id == self.spec_bucket_id(),
    {
        self.bucket_id
    }

    /// The bit of a hash that tells the two halves of this bucket apart.
    pub fn get_high_bit(&self) -> (bit: u64)
        requires
            self.spec_local_depth() < 64,
        ensures
            bit == 1u64 << (self.spec_local_depth() as u64),
    {
        1u64 << (self.local_depth as u64)
    }

    /// Takes out the least recently used element.
    pub fn pop_front(&mut self) -> (popped: Option<(K, V)>)
        ensures
            final(self).spec_accessed() == old(self).spec_accessed(),
            final(self).spec_local_depth() == old(self).spec_local_depth(),
            final(self).spec_capacity() == old(self).spec_capacity(),
            final(self).spec_bucket_id() == old(self).spec_bucket_id(),
            match popped {
                Some(element) => old(self).elements().len() > 0 && element == old(
                    self,
                ).elements()[0] && final(self).elements() == old(self).elements().remove(0),
                None => old(self).elements().len() == 0 && final(self).elements() == old(
                    self,
                ).elements(),
            },
    {
        let popped = self.elements.pop_front();
        proof {
            if popped.is_some() {
                assert(old(self).elements().subrange(1, old(self).elements().len() as int)
                    =~= old(self).elements().remove(0));
            }
        }
        popped
    }

    pub fn set_accessed(&mut self, accessed: bool)
        ensures
            final(self).spec_accessed() == accessed,
            final(self).elements() == old(self).elements(),
            final(self).spec_local_depth() == old(self).spec_local_depth(),
            final(self).spec_capacity() == old(self).spec_capacity(),
            final(self).spec_bucket_id() == old(self).spec_bucket_id(),
    {
        self.access_bit = accessed;
    }

    pub fn get_accessed(&self) -> (accessed: bool)
        ensures
            accessed == self.spec_accessed(),
    {
        self.access_bit
    }
}


/// Deepest directory the table grows to: beyond it buckets grow instead.
pub const MAX_GLOBAL_DEPTH: usize = 30;

/// Largest directory that `with_capacity_buckets` sets up.
pub const MAX_DIRECTORY_SIZE: usize = 0x4000_0000;

/// The low `depth` bits of `hash`: the directory slot of a key.
pub open spec fn slot_of(hash: u64, depth: usize) -> u64 {
    hash & (((1u64 << (depth as u64)) - 1) as u64)
}

proof fn lemma_slot_bound(hash: u64, depth: u64)
    requires
        depth < 64,
    ensures
        hash & (((1u64 << depth) - 1) as u64) < (1u64 << depth),
        (1u64 << depth) >= 1,
{
    assert(hash & (((1u64 << depth) - 1) as u64) < (1u64 << depth) && (1u64 << depth) >= 1)
        by (bit_vector)
        requires
            depth < 64,
    ;
}

proof fn lemma_slot_deeper(hash: u64, depth: u64)
    requires
        depth < 63,
    ensures
        (hash & (((1u64 << ((depth + 1) as u64)) - 1) as u64)) & (((1u64 << depth) - 1) as u64)
            == hash & (((1u64 << depth) - 1) as u64),
        (1u64 << ((depth + 1) as u64)) == 2 * (1u64 << depth),
{
    assert((hash & (((1u64 << ((depth + 1) as u64)) - 1) as u64)) & (((1u64 << depth) - 1) as u64)
        == hash & (((1u64 << depth) - 1) as u64) && (1u64 << ((depth + 1) as u64)) == 2 * (1u64
        << depth)) by (bit_vector)
        requires
            depth < 63,
    ;
}

/// The low `length` bits of `num`.
pub fn truncate_binary(num: u64, length: usize) -> (low: u64)
    ensures
        length >= 64 ==> low == num,
        length < 64 ==> low == slot_of(num, length),
{
    if length >= 64 {
        return num;
    }
    if num == 0 {
        assert(0u64 & (((1u64 << (length as u64)) - 1) as u64) == 0) by (bit_vector);
        return 0;
    }
    proof {
        lemma_slot_bound(num, length as u64);
    }
    let bitmask: u64 = (1u64 << (length as u64)) - 1;
    num & bitmask
}

pub struct ExtendibleHashTable<K: TableKey, V: TableValue> {
    directory: Vec<usize>,
    buckets: Vec<Bucket<K, V>>,
    global_depth: usize,
    current_size: usize,
    contents: Ghost<Map<K::V, V::V>>,
}

impl<K: TableKey, V: TableValue> View for ExtendibleHashTable<K, V> {
    type V = Map<K::V, V::V>;

    /// What the table holds: the value stored under each key.
    closed spec fn view(&self) -> Map<K::V, V::V> {
        self.contents@
    }
}

impl<K: TableKey, V: TableValue> ExtendibleHashTable<K, V> {
    pub closed spec fn spec_global_depth(&self) -> usize {
        self.global_depth
    }

    pub closed spec fn spec_directory(&self) -> Seq<usize> {
        self.directory@
    }

    pub closed spec fn spec_num_buckets(&self) -> int {
        self.buckets@.len() as int
    }

    /// The elements of the bucket at `index`, least recently used first.
    pub closed spec fn bucket_elements(&self, index: int) -> Seq<(K, V)> {
        self.buckets@[index].elements()
    }

    pub closed spec fn bucket_accessed(&self, index: int) -> bool {
        self.buckets@[index].spec_accessed()
    }

    pub closed spec fn bucket_id(&self, index: int) -> usize {
        self.buckets@[index].spec_bucket_id()
    }

    /// The bucket that the directory names for the key with view `id`.
    pub closed spec fn home(&self, id: K::V) -> int {
        self.directory@[self.slot(id)] as int
    }

    /// The directory slot that the key with view `id` belongs to.
    pub closed spec fn slot(&self, id: K::V) -> int {
        slot_of(K::spec_hash(id), self.global_depth) as int
    }

    /// Element `j` of bucket `b` is recorded in the view, and the directory
    /// leads from its key to bucket `b`.
    pub closed spec fn placed(&self, b: int, j: int) -> bool {
        let element = self.buckets@[b].elements()[j];
        &&& self.contents@.contains_key(element.0@)
        &&& self.contents@[element.0@] == element.1@
        &&& self.directory@[self.slot(element.0@)] == b
    }

    /// The directory covers every slot of the current depth and leads to
    /// existing buckets.
    pub closed spec fn shape_ok(&self) -> bool {
        &&& self.global_depth <= MAX_GLOBAL_DEPTH
        &&& self.directory@.len() >= (1u64 << (self.global_depth as u64))
        &&& forall|i: int|
            0 <= i < self.directory@.len() ==> (#[trigger] self.directory@[i]) < self.buckets@.len()
    }

    /// The table is consistent: the directory covers every slot and leads to
    /// existing buckets; the buckets hold exactly what the view records, each
    /// key once, in the bucket that the directory names for it; and the
    /// recorded size is the number of keys.
    pub closed spec fn wf(&self) -> bool {
        &&& self.shape_ok()
        &&& forall|b: int, j: int|
            0 <= b < self.buckets@.len() && 0 <= j < self.buckets@[b].elements().len()
                ==> #[trigger] self.placed(b, j)
        &&& forall|id: K::V| #[trigger]
            self.contents@.contains_key(id) ==> has_key(
                self.buckets@[self.directory@[self.slot(id)] as int].elements(),
                id,
            )
        &&& forall|b: int|
            0 <= b < self.buckets@.len() ==> distinct_keys(#[trigger] self.buckets@[b].elements())
        &&& self.contents@.dom().finite()
        &&& self.current_size == self.contents@.dom().len()
    }

    /// In a consistent table the bucket elements are the view: every element
    /// of every bucket is a pair of the view.
    pub proof fn lemma_element_in_view(&self, b: int, j: int)
        requires
            self.wf(),
            0 <= b < self.spec_num_buckets(),
            0 <= j < self.bucket_elements(b).len(),
        ensures
            self@.contains_key(self.bucket_elements(b)[j].0@),
            self@[self.bucket_elements(b)[j].0@] == self.bucket_elements(b)[j].1@,
    {
        assert(self.placed(b, j));
    }

    /// A consistent table holds finitely many keys.
    pub proof fn lemma_view_finite(&self)
        requires
            self.wf(),
        ensures
            self@.dom().finite(),
    {
    }

    /// In a consistent table every key of the view sits in some bucket.
    pub proof fn lemma_key_in_bucket(&self, id: K::V) -> (b: int)
        requires
            self.wf(),
            self@.contains_key(id),
        ensures
            0 <= b < self.spec_num_buckets(),
            has_key(self.bucket_elements(b), id),
    {
        self.lemma_slot_in_directory(id);
        self.directory@[self.slot(id)] as int
    }

    /// The directory leads from every key to an existing bucket.
    proof fn lemma_home(&self, id: K::V)
        requires
            self.shape_ok(),
        ensures
            0 <= self.slot(id) < self.directory@.len(),
            0 <= self.directory@[self.slot(id)] < self.buckets@.len(),
    {
        self.lemma_slot_in_directory(id);
    }

    proof fn lemma_slot_in_directory(&self, id: K::V)
        requires
            self.global_depth <= MAX_GLOBAL_DEPTH,
            self.directory@.len() >= (1u64 << (self.global_depth as u64)),
        ensures
            0 <= self.slot(id) < self.directory@.len(),
            self.slot(id) < (1u64 << (self.global_depth as u64)),
    {
        lemma_slot_bound(K::spec_hash(id), self.global_depth as u64);
    }

    /// A table of `num_buckets` empty buckets of `bucket_capacity` elements
    /// each, all marked as used, under a directory of `dir_size` slots that
    /// names them in turn.
    pub fn with_capacity_buckets(bucket_capacity: usize, num_buckets: usize, dir_size: usize) -> (table:
        Self)
        requires
            1 <= num_buckets,
            1 <= dir_size <= MAX_DIRECTORY_SIZE,
        ensures
            table.wf(),
            table@ == Map::<K::V, V::V>::empty(),
            table.spec_num_buckets() == num_buckets,
            table.spec_directory().len() == dir_size,
            (1u64 << (table.spec_global_depth() as u64)) <= dir_size,
            dir_size < 2 * (1u64 << (table.spec_global_depth() as u64)),
            forall|i: int| 0 <= i < dir_size ==> table.spec_directory()[i] == i % (num_buckets as int),
            forall|b: int| 0 <= b < num_buckets ==> #[trigger] table.bucket_id(b) == b + 1,
            forall|b: int| 0 <= b < num_buckets ==> #[trigger] table.bucket_accessed(b),
            forall|b: int|
                0 <= b < num_buckets ==> #[trigger] table.bucket_elements(b) == Seq::<(K, V)>::empty(),
    {
        let mut buckets: Vec<Bucket<K, V>> = Vec::new();
        let mut i: usize = 0;
        while i < num_buckets
            invariant
                0 <= i <= num_buckets,
                buckets@.len() == i,
                forall|b: int|
                    0 <= b < i ==> (#[trigger] buckets@[b]).elements() == Seq::<(K, V)>::empty()
                        && buckets@[b].spec_bucket_id() == b + 1 && buckets@[b].spec_accessed(),
            decreases num_buckets - i,
        {
            buckets.push(Bucket::new(bucket_capacity, 1, i + 1));
            i += 1;
        }
        let mut directory: Vec<usize> = Vec::new();
        let mut slot: usize = 0;
        while slot < dir_size
            invariant
                0 <= slot <= dir_size,
                1 <= num_buckets,
                directory@.len() == slot,
                forall|s: int| 0 <= s < slot ==> (#[trigger] directory@[s]) == s % (num_buckets as int),
            decreases dir_size - slot,
        {
            directory.push(slot % num_buckets);
            slot += 1;
        }
        let mut depth: usize = 0;
        assert((1u64 << 0u64) == 1) by (bit_vector);
        while depth < MAX_GLOBAL_DEPTH && (1u64 << ((depth + 1) as u64)) <= dir_size as u64
            invariant
                0 <= depth <= MAX_GLOBAL_DEPTH,
                (1u64 << (depth as u64)) <= dir_size,
                dir_size <= MAX_DIRECTORY_SIZE,
            decreases MAX_GLOBAL_DEPTH - depth,
        {
            depth += 1;
        }
        proof {
            assert((1u64 << 0u64) == 1) by (bit_vector);
            assert((1u64 << 30u64) == 0x4000_0000) by (bit_vector);
            lemma_slot_deeper(0, depth as u64);
        }
        let table = ExtendibleHashTable {
            directory,
            buckets,
            global_depth: depth,
            current_size: 0,
            contents: Ghost(Map::empty()),
        };
        proof {
            assert forall|i: int| 0 <= i < table.directory@.len() implies (
            #[trigger] table.directory@[i]) < table.buckets@.len() by {
                vstd::arithmetic::div_mod::lemma_mod_bound(i, num_buckets as int);
            }
            assert forall|b: int| 0 <= b < table.buckets@.len() implies distinct_keys(
                #[trigger] table.buckets@[b].elements(),
            ) by {}
        }
        table
    }

    /// A table of two empty buckets of `bucket_size` elements each, under a
    /// directory of four slots.
    pub fn new(bucket_size: usize) -> (table: Self)
        ensures
            table.wf(),
            table@ == Map::<K::V, V::V>::empty(),
            table.spec_num_buckets() == 2,
            table.spec_global_depth() == 2,
            table.spec_directory() == seq![0usize, 1usize, 0usize, 1usize],
    {
        let table = Self::with_capacity_buckets(bucket_size, 2, 4);
        proof {
            assert((1u64 << 0u64) == 1 && (1u64 << 1u64) == 2 && (1u64 << 2u64) == 4 && (1u64
                << 3u64) == 8) by (bit_vector);
            let g = table.spec_global_depth() as u64;
            if g != 2 {
                assert(g <= 30);
                assert(g >= 3 ==> (1u64 << g) >= 8) by (bit_vector)
                    requires
                        g <= 30,
                ;
            }
            assert(table.spec_directory() =~= seq![0usize, 1usize, 0usize, 1usize]);
        }
        table
    }

    /// Number of keys in the table.
    pub fn len(&self) -> (len: usize)
        requires
            self.wf(),
        ensures
            len == self@.dom().len(),
    {
        self.current_size
    }

    /// Number of buckets that were ever made, emptied ones included.
    pub fn num_buckets(&self) -> (n: usize)
        ensures
            n == self.spec_num_buckets(),
    {
        self.buckets.len()
    }

    /// The directory slot of `key`.
    pub fn hash_key(&self, key: &K) -> (slot: u64)
        requires
            self.wf(),
        ensures
            slot == self.slot(key@),
            slot < self.spec_directory().len(),
            slot < usize::MAX,
    {
        self.slot_for(key)
    }

    fn slot_for(&self, key: &K) -> (slot: u64)
        requires
            self.shape_ok(),
        ensures
            slot == self.slot(key@),
            slot < self.directory@.len(),
            slot < usize::MAX,
    {
        proof {
            self.lemma_slot_in_directory(key@);
        }
        let slots: usize = self.directory.len();
        let hash_value: u64 = key.hash_code();
        hash_value & ((1u64 << (self.global_depth as u64)) - 1)
    }

    pub fn get_global_depth(&self) -> (depth: usize)
        ensures
            depth == self.spec_global_depth(),
    {
        self.global_depth
    }

    pub fn get_current_size(&self) -> (size: usize)
        requires
            self.wf(),
        ensures
            size == self@.dom().len(),
    {
        self.current_size
    }

    /// The directory: for each slot the index of its bucket.
    pub fn get_directory(&self) -> (directory: &Vec<usize>)
        ensures
            directory@ == self.spec_directory(),
    {
        &self.directory
    }

    /// The bucket that directory slot `index` leads to.
    pub fn get_bucket(&self, index: usize) -> (bucket: Option<&Bucket<K, V>>)
        requires
            self.wf(),
        ensures
            match bucket {
                Some(b) => index < self.spec_directory().len() && b.elements()
                    == self.bucket_elements(self.spec_directory()[index as int] as int),
                None => index >= self.spec_directory().len(),
            },
    {
        if index < self.directory.len() {
            Some(&self.buckets[self.directory[index]])
        } else {
            None
        }
    }

    /// Whether the bucket at `index` was used since its flag was cleared.
    pub fn accessed(&self, index: usize) -> (accessed: bool)
        requires
            index < self.spec_num_buckets(),
        ensures
            accessed == self.bucket_accessed(index as int),
    {
        self.buckets[index].get_accessed()
    }

    /// Marks the bucket at `index` as used or as unused.
    pub fn set_accessed(&mut self, index: usize, accessed: bool)
        requires
            old(self).wf(),
            index < old(self).spec_num_buckets(),
        ensures
            final(self).wf(),
            final(self)@ == old(self)@,
            final(self).spec_num_buckets() == old(self).spec_num_buckets(),
            final(self).bucket_accessed(index as int) == accessed,
            forall|b: int|
                0 <= b < final(self).spec_num_buckets() ==> #[trigger] final(self).bucket_elements(b)
                    == old(self).bucket_elements(b),
            forall|b: int|
                0 <= b < final(self).spec_num_buckets() && b != index
                    ==> #[trigger] final(self).bucket_accessed(b) == old(self).bucket_accessed(b),
    {
        self.buckets[index].set_accessed(accessed);
        proof {
            assert forall|id: K::V| #[trigger] self.contents@.contains_key(id) implies has_key(
                self.buckets@[self.directory@[self.slot(id)] as int].elements(),
                id,
            ) by {
                old(self).lemma_home(id);
            }
            assert forall|b: int, j: int|
                0 <= b < self.buckets@.len() && 0 <= j < self.buckets@[b].elements().len() implies #[trigger] self.placed(
                b,
                j,
            ) by {
                assert(old(self).placed(b, j));
            }
        }
    }

    /// The value stored under `key`, if any. The bucket that the directory
    /// names for the key is marked as used, and the element that was found
    /// becomes the most recently used of that bucket: it goes to the back
    /// of the bucket's queue. The other buckets stay as they are.
    pub fn get(&mut self, key: &K) -> (value: Option<V>)
        requires
            old(self).wf(),
        ensures
            final(self).wf(),
            final(self)@ == old(self)@,
            final(self).spec_num_buckets() == old(self).spec_num_buckets(),
            match value {
                Some(v) => old(self)@.contains_key(key@) && old(self)@[key@] == v@,
                None => !old(self)@.contains_key(key@),
            },
            final(self).spec_directory() == old(self).spec_directory(),
            final(self).spec_global_depth() == old(self).spec_global_depth(),
            forall|id: K::V| #[trigger] final(self).home(id) == old(self).home(id),
            0 <= old(self).home(key@) < old(self).spec_num_buckets(),
            final(self).bucket_accessed(old(self).home(key@)),
            forall|c: int|
                0 <= c < old(self).spec_num_buckets() && c != old(self).home(key@)
                    ==> #[trigger] final(self).bucket_elements(c) == old(self).bucket_elements(c)
                    && final(self).bucket_accessed(c) == old(self).bucket_accessed(c),
            ({
                let before = old(self).bucket_elements(old(self).home(key@));
                let after = final(self).bucket_elements(old(self).home(key@));
                match value {
                    Some(v) => exists|i: int|
                        0 <= i < before.len() && (#[trigger] before[i]).0@ == key@ && after
                            == before.remove(i).push(before[i]),
                    None => after == before,
                }
            }),
    {
        let slot = self.hash_key(key) as usize;
        proof {
            old(self).lemma_home(key@);
        }
        let b = self.directory[slot];
        let found = self.buckets[b].get_item(key);
        proof {
            let before = old(self).buckets@[b as int].elements();
            let after = self.buckets@[b as int].elements();
            if found.is_some() {
                    let copy = found.unwrap();
                    let i = choose|i: int|
                        0 <= i < before.len() && (#[trigger] before[i]).0@ == key@ && copy.1@
                            == before[i].1@ && after == before.remove(i).push(before[i]);
                    assert(old(self).placed(b as int, i));
                    assert(old(self).home(key@) == b as int);
                    assert(before == old(self).bucket_elements(b as int));
                    assert(after == self.bucket_elements(b as int));
                    assert(0 <= i < before.len() && before[i].0@ == key@ && after == before.remove(
                        i,
                    ).push(before[i]));
                    assert forall|j: int| 0 <= j < after.len() implies #[trigger] self.placed(
                        b as int,
                        j,
                    ) by {
                        if j < i {
                            assert(old(self).placed(b as int, j));
                        } else if j < after.len() - 1 {
                            assert(old(self).placed(b as int, j + 1));
                        } else {
                            assert(old(self).placed(b as int, i));
                        }
                    }
                    assert forall|id: K::V| #[trigger] self.contents@.contains_key(id) implies has_key(
                        self.buckets@[self.directory@[self.slot(id)] as int].elements(),
                        id,
                    ) by {
                        old(self).lemma_home(id);
                        let d = self.directory@[self.slot(id)] as int;
                        assert(has_key(old(self).buckets@[d].elements(), id));
                        if d == b {
                            let j = choose|j: int| 0 <= j < before.len() && (#[trigger] before[j]).0@ == id;
                            if j < i {
                                assert(after[j].0@ == id);
                            } else if j == i {
                                assert(after[after.len() - 1].0@ == id);
                            } else {
                                assert(after[j - 1].0@ == id);
                            }
                        }
                    }
                    assert(distinct_keys(after)) by {
                        assert forall|x: int, y: int| 0 <= x < y < after.len() implies (
                        #[trigger] after[x]).0@ != (#[trigger] after[y]).0@ by {
                            let ox = if x < i { x } else { x + 1 };
                            let oy = if y == after.len() - 1 { i } else if y < i { y } else { y + 1 };
                            assert(after[x] == before[ox]);
                            assert(after[y] == before[oy]);
                        }
                    }
            } else {
                    if old(self)@.contains_key(key@) {
                        old(self).lemma_home(key@);
                        assert(has_key(before, key@));
                    }
                    assert forall|id: K::V| #[trigger] self.contents@.contains_key(id) implies has_key(
                        self.buckets@[self.directory@[self.slot(id)] as int].elements(),
                        id,
                    ) by {
                        old(self).lemma_home(id);
                    }
            }
            assert forall|c: int, j: int|
                0 <= c < self.buckets@.len() && 0 <= j < self.buckets@[c].elements().len() implies #[trigger] self.placed(
                c,
                j,
            ) by {
                if c != b || found.is_none() {
                    assert(old(self).placed(c, j));
                }
            }
        }
        match found {
            Some(copy) => Some(copy.1),
            None => None,
        }
    }

    /// Takes `key` out of the table and returns the element that held it.
    pub fn remove(&mut self, key: &K) -> (removed: Option<(K, V)>)
        requires
            old(self).wf(),
        ensures
            final(self).wf(),
            final(self)@ == old(self)@.remove(key@),
            final(self).spec_num_buckets() == old(self).spec_num_buckets(),
            match removed {
                Some(element) => old(self)@.contains_key(key@) && element.0@ == key@ && element.1@
                    == old(self)@[key@],
                None => !old(self)@.contains_key(key@),
            },
    {
        let slot = self.slot_for(key) as usize;
        proof {
            old(self).lemma_home(key@);
        }
        let b = self.directory[slot];
        match self.buckets[b].position(key) {
            Some(index) => {
                proof {
                    assert(old(self).placed(b as int, index as int));
                }
                self.current_size -= 1;
                let removed = self.buckets[b].remove_element(index);
                proof {
                    self.contents = Ghost(self.contents@.remove(key@));
                    self.lemma_after_removal(*old(self), b as int, index as int);
                }
                removed
            },
            None => {
                proof {
                    assert(self.contents@.remove(key@) =~= self.contents@);
                }
                None
            },
        }
    }

    /// Taking element `i` out of bucket `b`, and its key out of the view,
    /// leaves a consistent table.
    proof fn lemma_after_removal(&self, before: Self, b: int, i: int)
        requires
            before.wf(),
            0 <= b < before.buckets@.len(),
            0 <= i < before.buckets@[b].elements().len(),
            self.global_depth == before.global_depth,
            self.directory@ == before.directory@,
            self.buckets@.len() == before.buckets@.len(),
            forall|c: int|
                0 <= c < self.buckets@.len() && c != b ==> (#[trigger] self.buckets@[c]).elements()
                    == before.buckets@[c].elements(),
            self.buckets@[b].elements() == before.buckets@[b].elements().remove(i),
            self.contents@ == before.contents@.remove(before.buckets@[b].elements()[i].0@),
            self.current_size == before.current_size - 1,
        ensures
            self.wf(),
    {
        let gone = before.buckets@[b].elements()[i].0@;
        let was = before.buckets@[b].elements();
        let now = self.buckets@[b].elements();
        assert(before.placed(b, i));
        assert forall|c: int, j: int|
            0 <= c < self.buckets@.len() && 0 <= j < self.buckets@[c].elements().len() implies #[trigger] self.placed(
            c,
            j,
        ) by {
            if c == b {
                let k = if j < i { j } else { j + 1 };
                assert(before.placed(b, k));
                assert(now[j] == was[k]);
            } else {
                assert(before.placed(c, j));
            }
        }
        assert forall|id: K::V| #[trigger] self.contents@.contains_key(id) implies has_key(
            self.buckets@[self.directory@[self.slot(id)] as int].elements(),
            id,
        ) by {
            before.lemma_home(id);
            let d = self.directory@[self.slot(id)] as int;
            assert(before.contents@.contains_key(id));
            assert(has_key(before.buckets@[d].elements(), id));
            if d == b {
                let j = choose|j: int| 0 <= j < was.len() && (#[trigger] was[j]).0@ == id;
                if j < i {
                    assert(now[j].0@ == id);
                } else {
                    assert(now[j - 1].0@ == id);
                }
            }
        }
        assert forall|c: int| 0 <= c < self.buckets@.len() implies distinct_keys(
            #[trigger] self.buckets@[c].elements(),
        ) by {
            if c == b {
                assert forall|x: int, y: int| 0 <= x < y < now.len() implies (#[trigger] now[x]).0@ != (
                #[trigger] now[y]).0@ by {
                    let ox = if x < i { x } else { x + 1 };
                    let oy = if y < i { y } else { y + 1 };
                    assert(now[x] == was[ox]);
                    assert(now[y] == was[oy]);
                }
            } else {
                assert(distinct_keys(before.buckets@[c].elements()));
            }
        }
        assert(self.contents@.dom() =~= before.contents@.dom().remove(gone));
    }

    /// Takes the least recently used element out of the bucket at
    /// `bucket_index`.
    pub fn bucket_pop_front(&mut self, bucket_index: usize) -> (popped: Option<(K, V)>)
        requires
            old(self).wf(),
            bucket_index < old(self).spec_num_buckets(),
        ensures
            final(self).wf(),
            final(self).spec_num_buckets() == old(self).spec_num_buckets(),
            match popped {
                Some(element) => old(self).bucket_elements(bucket_index as int).len() > 0 && element
                    == old(self).bucket_elements(bucket_index as int)[0] && old(self)@.contains_key(
                    element.0@,
                ) && old(self)@[element.0@] == element.1@ && final(self)@ == old(self)@.remove(
                    element.0@,
                ),
                None => old(self).bucket_elements(bucket_index as int).len() == 0 && final(self)@
                    == old(self)@,
            },
            forall|b: int|
                0 <= b < final(self).spec_num_buckets() ==> #[trigger] final(self).bucket_accessed(b)
                    == old(self).bucket_accessed(b),
            forall|b: int|
                0 <= b < final(self).spec_num_buckets() && b != bucket_index
                    ==> #[trigger] final(self).bucket_elements(b) == old(self).bucket_elements(b),
            popped.is_none() ==> final(self).bucket_elements(bucket_index as int) == old(
                self,
            ).bucket_elements(bucket_index as int),
            popped.is_some() ==> final(self).bucket_elements(bucket_index as int) == old(
                self,
            ).bucket_elements(bucket_index as int).remove(0),
    {
        let popped = self.buckets[bucket_index].pop_front();
        if popped.is_some() {
            proof {
                assert(old(self).placed(bucket_index as int, 0));
                let gone = old(self).buckets@[bucket_index as int].elements()[0].0@;
                assert(old(self).contents@.dom().remove(gone).len() == old(self).contents@.dom().len() - 1);
            }
            self.current_size -= 1;
            proof {
                let gone = old(self).buckets@[bucket_index as int].elements()[0].0@;
                self.contents = Ghost(self.contents@.remove(gone));
                self.lemma_after_removal(*old(self), bucket_index as int, 0);
            }
        } else {
            proof {
                assert forall|c: int, j: int|
                    0 <= c < self.buckets@.len() && 0 <= j < self.buckets@[c].elements().len() implies #[trigger] self.placed(
                    c,
                    j,
                ) by {
                    assert(old(self).placed(c, j));
                }
                assert forall|id: K::V| #[trigger] self.contents@.contains_key(id) implies has_key(
                    self.buckets@[self.directory@[self.slot(id)] as int].elements(),
                    id,
                ) by {
                    old(self).lemma_home(id);
                }
            }
        }
        popped
    }

    /// Takes the least recently used element out of the bucket at
    /// `bucket_index` and returns its key.
    pub fn bucket_remove_lru(&mut self, bucket_index: usize) -> (evicted: Option<K>)
        requires
            old(self).wf(),
            bucket_index < old(self).spec_num_buckets(),
        ensures
            final(self).wf(),
            final(self).spec_num_buckets() == old(self).spec_num_buckets(),
            match evicted {
                Some(key) => old(self).bucket_elements(bucket_index as int).len() > 0 && key@ == old(
                    self,
                ).bucket_elements(bucket_index as int)[0].0@ && old(self)@.contains_key(key@)
                    && final(self)@ == old(self)@.remove(key@),
                None => old(self).bucket_elements(bucket_index as int).len() == 0 && final(self)@
                    == old(self)@,
            },
            forall|b: int|
                0 <= b < final(self).spec_num_buckets() ==> #[trigger] final(self).bucket_accessed(b)
                    == old(self).bucket_accessed(b),
            forall|b: int|
                0 <= b < final(self).spec_num_buckets() && b != bucket_index
                    ==> #[trigger] final(self).bucket_elements(b) == old(self).bucket_elements(b),
            evicted.is_none() ==> final(self).bucket_elements(bucket_index as int) == old(
                self,
            ).bucket_elements(bucket_index as int),
            evicted.is_some() ==> final(self).bucket_elements(bucket_index as int) == old(
                self,
            ).bucket_elements(bucket_index as int).remove(0),
    {
        match self.bucket_pop_front(bucket_index) {
            Some(element) => Some(element.0),
            None => None,
        }
    }

    /// Whether the key with view `id` falls into the lower half of a bucket
    /// that is split at `high_bit`.
    pub closed spec fn low_side(depth: usize, id: K::V, high_bit: u64) -> bool {
        slot_of(K::spec_hash(id), depth) & high_bit == 0
    }

    /// The elements `elements` of bucket `b` that go to the first of the
    /// two buckets that `b` is split into, in their order.
    pub closed spec fn lower_half(&self, b: int, elements: Seq<(K, V)>) -> Seq<(K, V)> {
        Self::half(elements, self.split_depth(b), self.split_bit(b), true)
    }

    /// The elements `elements` of bucket `b` that go to the second of the
    /// two buckets that `b` is split into, in their order.
    pub closed spec fn upper_half(&self, b: int, elements: Seq<(K, V)>) -> Seq<(K, V)> {
        Self::half(elements, self.split_depth(b), self.split_bit(b), false)
    }

    /// The depth of the directory when bucket `b` is split: one more than
    /// now where the bucket has the depth of the directory, which doubles
    /// first.
    pub closed spec fn split_depth(&self, b: int) -> usize {
        if self.buckets@[b].spec_local_depth() == self.global_depth && self.global_depth
            < MAX_GLOBAL_DEPTH {
            (self.global_depth + 1) as usize
        } else {
            self.global_depth
        }
    }

    /// The bit of a slot that decides between the two halves of bucket `b`.
    pub closed spec fn split_bit(&self, b: int) -> u64 {
        1u64 << (self.buckets@[b].spec_local_depth() as u64)
    }

    /// The half that holds the last element has it at its back.
    proof fn lemma_half_last(elements: Seq<(K, V)>, depth: usize, high_bit: u64)
        requires
            elements.len() > 0,
        ensures
            ({
                let low = Self::low_side(depth, elements.last().0@, high_bit);
                let part = Self::half(elements, depth, high_bit, low);
                part.len() > 0 && part.last() == elements.last()
            }),
    {
        let low = Self::low_side(depth, elements.last().0@, high_bit);
        assert(elements =~= elements.drop_last().push(elements.last()));
        Self::lemma_half_push(elements.drop_last(), elements.last(), depth, high_bit, low);
    }

    /// The elements of a bucket that go to the first (`low`) or to the
    /// second of the two buckets that it is split into, in the order that
    /// they have in the bucket.
    pub closed spec fn half(elements: Seq<(K, V)>, depth: usize, high_bit: u64, low: bool) -> Seq<
        (K, V),
    > {
        elements.filter(|e: (K, V)| Self::low_side(depth, e.0@, high_bit) == low)
    }

    /// The half that takes an element more has it at its back; the other
    /// half stays as it is.
    proof fn lemma_half_push(elements: Seq<(K, V)>, element: (K, V), depth: usize, high_bit: u64, low: bool)
        ensures
            Self::half(elements.push(element), depth, high_bit, low) == if Self::low_side(
                depth,
                element.0@,
                high_bit,
            ) == low {
                Self::half(elements, depth, high_bit, low).push(element)
            } else {
                Self::half(elements, depth, high_bit, low)
            },
    {
        elements.lemma_filter_push(element, |e: (K, V)| Self::low_side(depth, e.0@, high_bit) == low);
    }

    /// Doubles the directory: the new upper half names the same buckets as
    /// the lower half.
    fn double_directory(&mut self)
        requires
            old(self).wf(),
            old(self).global_depth < MAX_GLOBAL_DEPTH,
        ensures
            final(self).wf(),
            final(self)@ == old(self)@,
            final(self).buckets@ == old(self).buckets@,
            final(self).global_depth == old(self).global_depth + 1,
            forall|i: int|
                0 <= i < (1u64 << (old(self).global_depth as u64)) ==> i < final(self).directory@.len()
                    && #[trigger] final(self).directory@[i] == old(self).directory@[i],
    {
        let old_depth: usize = self.global_depth;
        self.global_depth += 1;
        proof {
            lemma_slot_deeper(0, old_depth as u64);
            lemma_slot_bound(0, old_depth as u64);
            let deeper = (old_depth + 1) as u64;
            assert((1u64 << deeper) <= 0x4000_0000) by (bit_vector)
                requires
                    deeper <= 30,
            ;
        }
        let new_size: usize = (1u64 << (self.global_depth as u64)) as usize;
        let old_size: usize = self.directory.len();
        let mut new_directory: Vec<usize> = Vec::new();
        let mut i: usize = 0;
        while i < new_size
            invariant
                0 <= i <= new_size,
                old_depth < MAX_GLOBAL_DEPTH,
                self.directory@ == old(self).directory@,
                self.buckets@ == old(self).buckets@,
                self.directory@.len() >= (1u64 << (old_depth as u64)),
                self.directory@.len() <= usize::MAX,
                new_size <= 0x4000_0000,
                new_directory@.len() == i,
                forall|s: int|
                    0 <= s < i ==> #[trigger] new_directory@[s] == self.directory@[slot_of(
                        s as u64,
                        old_depth,
                    ) as int],
            decreases new_size - i,
        {
            proof {
                lemma_slot_bound(i as u64, old_depth as u64);
            }
            let from = truncate_binary(i as u64, old_depth) as usize;
            assert(from as int == slot_of(i as u64, old_depth) as int);
            new_directory.push(self.directory[from]);
            i += 1;
        }
        self.directory = new_directory;
        proof {
            let before = *old(self);
            assert forall|s: int| 0 <= s < self.directory@.len() implies (#[trigger] self.directory@[s])
                < self.buckets@.len() by {
                lemma_slot_bound(s as u64, old_depth as u64);
            }
            assert(self.shape_ok());
            assert forall|id: K::V|
                0 <= self.slot(id) < self.directory@.len() && #[trigger] self.directory@[self.slot(id)]
                    == before.directory@[before.slot(id)] by {
                lemma_slot_bound(K::spec_hash(id), self.global_depth as u64);
                lemma_slot_deeper(K::spec_hash(id), old_depth as u64);
            }
            assert forall|b: int, j: int|
                0 <= b < self.buckets@.len() && 0 <= j < self.buckets@[b].elements().len() implies #[trigger] self.placed(
                b,
                j,
            ) by {
                assert(before.placed(b, j));
                let id = self.buckets@[b].elements()[j].0@;
                assert(self.directory@[self.slot(id)] == before.directory@[before.slot(id)]);
            }
            assert forall|id: K::V| #[trigger] self.contents@.contains_key(id) implies has_key(
                self.buckets@[self.directory@[self.slot(id)] as int].elements(),
                id,
            ) by {
                assert(self.directory@[self.slot(id)] == before.directory@[before.slot(id)]);
            }
            assert forall|i: int| 0 <= i < (1u64 << (old_depth as u64)) implies i
                < self.directory@.len() && #[trigger] self.directory@[i] == before.directory@[i] by {
                let x = i as u64;
                let d = old_depth as u64;
                assert(x & (((1u64 << d) - 1) as u64) == x) by (bit_vector)
                    requires
                        x < (1u64 << d),
                        d < 64,
                ;
            }
        }
    }

    /// Splits the bucket that directory slot `index` leads to: its elements
    /// go to two new buckets by the bit of their slot that lies just above
    /// the bucket's depth, and every slot that led to it leads to one of the
    /// two by the same bit.
    fn split_bucket(&mut self, index: usize)
        requires
            old(self).wf(),
            index < old(self).directory@.len(),
            old(self).buckets@[old(self).directory@[index as int] as int].spec_local_depth() < 63,
        ensures
            final(self).wf(),
            final(self)@ == old(self)@,
            final(self).global_depth == old(self).global_depth,
            final(self).buckets@.len() == old(self).buckets@.len() + 2,
            ({
                let b = old(self).directory@[index as int] as int;
                let n = old(self).buckets@.len() as int;
                let all = old(self).buckets@[b].elements();
                let depth = old(self).global_depth;
                let high_bit = 1u64 << (old(self).buckets@[b].spec_local_depth() as u64);
                &&& final(self).buckets@[n].elements() == Self::half(all, depth, high_bit, true)
                &&& final(self).buckets@[n + 1].elements() == Self::half(all, depth, high_bit, false)
                &&& final(self).buckets@[b].elements() == Seq::<(K, V)>::empty()
                &&& final(self).buckets@[n].spec_accessed()
                &&& final(self).buckets@[n + 1].spec_accessed()
                &&& forall|c: int|
                    0 <= c < n && c != b ==> #[trigger] final(self).buckets@[c] == old(self).buckets@[c]
                &&& forall|id: K::V| #[trigger]
                    final(self).home(id) == if old(self).home(id) == b {
                        if Self::low_side(depth, id, high_bit) {
                            n
                        } else {
                            n + 1
                        }
                    } else {
                        old(self).home(id)
                    }
            }),
    {
        let b: usize = self.directory[index];
        let local_depth: usize = self.buckets[b].get_local_depth();
        let capacity: usize = self.buckets[b].capacity;
        let high_bit: u64 = self.buckets[b].get_high_bit();
        let n: usize = self.buckets.len();
        let depth: usize = self.global_depth;
        let mut bucket1: Bucket<K, V> = Bucket::new(capacity, local_depth + 1, n.wrapping_add(1));
        let mut bucket2: Bucket<K, V> = Bucket::new(capacity, local_depth + 1, n.wrapping_add(2));
        let ghost before = *old(self);
        let ghost all = before.buckets@[b as int].elements();
        let ghost mut moved: int = 0;
        let ghost mut src1: Seq<int> = Seq::empty();
        let ghost mut src2: Seq<int> = Seq::empty();
        let ghost mut dst: Seq<int> = Seq::empty();
        assert(self.buckets@[b as int].elements() =~= all.subrange(0, all.len() as int));
        proof {
            assert(all.take(0) =~= Seq::<(K, V)>::empty());
            reveal(Seq::filter);
            assert(Self::half(all.take(0), depth, high_bit, true) =~= Seq::<(K, V)>::empty());
            assert(Self::half(all.take(0), depth, high_bit, false) =~= Seq::<(K, V)>::empty());
        }
        loop
            invariant
                bucket1.elements() == Self::half(all.take(moved), depth, high_bit, true),
                bucket2.elements() == Self::half(all.take(moved), depth, high_bit, false),
                bucket1.spec_accessed(),
                bucket2.spec_accessed(),
                before.wf(),
                self.shape_ok(),
                depth == before.global_depth,
                high_bit == 1u64 << (local_depth as u64),
                self.global_depth == before.global_depth,
                self.directory@ == before.directory@,
                self.contents@ == before.contents@,
                self.current_size == before.current_size,
                self.buckets@.len() == before.buckets@.len(),
                n == self.buckets@.len(),
                b < n,
                all == before.buckets@[b as int].elements(),
                forall|c: int|
                    0 <= c < n && c != b ==> (#[trigger] self.buckets@[c]) == before.buckets@[c],
                0 <= moved <= all.len(),
                self.buckets@[b as int].elements() == all.subrange(moved, all.len() as int),
                src1.len() == bucket1.elements().len(),
                src2.len() == bucket2.elements().len(),
                dst.len() == moved,
                forall|x: int|
                    0 <= x < src1.len() ==> 0 <= (#[trigger] src1[x]) < moved && bucket1.elements()[x]
                        == all[src1[x]] && Self::low_side(depth, all[src1[x]].0@, high_bit),
                forall|x: int|
                    0 <= x < src2.len() ==> 0 <= (#[trigger] src2[x]) < moved && bucket2.elements()[x]
                        == all[src2[x]] && !Self::low_side(depth, all[src2[x]].0@, high_bit),
                forall|j: int|
                    0 <= j < moved ==> 0 <= (#[trigger] dst[j]) && (if Self::low_side(
                        depth,
                        all[j].0@,
                        high_bit,
                    ) {
                        dst[j] < bucket1.elements().len() && bucket1.elements()[dst[j]] == all[j]
                    } else {
                        dst[j] < bucket2.elements().len() && bucket2.elements()[dst[j]] == all[j]
                    }),
                distinct_keys(bucket1.elements()),
                distinct_keys(bucket2.elements()),
            ensures
                moved == all.len(),
            decreases all.len() - moved,
        {
            let ghost part1 = bucket1.elements();
            let ghost part2 = bucket2.elements();
            match self.buckets[b].pop_front() {
                Some(element) => {
                    assert(element == all[moved]);
                    assert(distinct_keys(all));
                    let slot: u64 = self.slot_for(&element.0);
                    let ghost id = element.0@;
                    assert(Self::low_side(depth, id, high_bit) == (slot & high_bit == 0));
                    if slot & high_bit == 0 {
                        proof {
                            if has_key(part1, id) {
                                let x = choose|x: int| 0 <= x < part1.len() && (#[trigger] part1[x]).0@ == id;
                                assert(part1[x] == all[src1[x]]);
                                assert(all[src1[x]].0@ != all[moved].0@);
                            }
                        }
                        let added = bucket1.add_element_ignore(element);
                        proof {
                            assert(bucket1.elements() == part1.push(element));
                            dst = dst.push(part1.len() as int);
                            src1 = src1.push(moved);
                        }
                    } else {
                        proof {
                            if has_key(part2, id) {
                                let x = choose|x: int| 0 <= x < part2.len() && (#[trigger] part2[x]).0@ == id;
                                assert(part2[x] == all[src2[x]]);
                                assert(all[src2[x]].0@ != all[moved].0@);
                            }
                        }
                        let added = bucket2.add_element_ignore(element);
                        proof {
                            assert(bucket2.elements() == part2.push(element));
                            dst = dst.push(part2.len() as int);
                            src2 = src2.push(moved);
                        }
                    }
                    proof {
                        assert(self.buckets@[b as int].elements() =~= all.subrange(
                            moved + 1,
                            all.len() as int,
                        ));
                        assert(all.take(moved + 1) =~= all.take(moved).push(element));
                        Self::lemma_half_push(all.take(moved), element, depth, high_bit, true);
                        Self::lemma_half_push(all.take(moved), element, depth, high_bit, false);
                        moved = moved + 1;
                    }
                },
                None => {
                    break ;
                },
            }
        }
        assert(moved == all.len());
        assert(all.take(moved) =~= all);
        self.buckets.push(bucket1);
        self.buckets.push(bucket2);
        let upper: usize = self.buckets.len() - 1;
        let ghost mid = *self;
        let mut i: usize = 0;
        while i < self.directory.len()
            invariant
                0 <= i <= self.directory@.len(),
                self.directory@.len() == mid.directory@.len(),
                self.buckets@ == mid.buckets@,
                self.global_depth == mid.global_depth,
                self.contents@ == mid.contents@,
                self.current_size == mid.current_size,
                b < n,
                n + 2 == self.buckets@.len(),
                upper == n + 1,
                depth == self.global_depth,
                forall|s: int|
                    i <= s < self.directory@.len() ==> #[trigger] self.directory@[s] == mid.directory@[s],
                forall|s: int|
                    0 <= s < i ==> #[trigger] self.directory@[s] == (if mid.directory@[s] == b {
                        if (s as u64) & high_bit == 0 {
                            n
                        } else {
                            (n + 1) as usize
                        }
                    } else {
                        mid.directory@[s]
                    }),
            decreases self.directory@.len() - i,
        {
            if self.directory[i] == b {
                if (i as u64) & high_bit == 0 {
                    self.directory[i] = n;
                } else {
                    self.directory[i] = upper;
                }
            }
            i += 1;
        }
        proof {
            let part1 = self.buckets@[n as int].elements();
            let part2 = self.buckets@[n + 1].elements();
            assert(forall|s: int| 0 <= s < self.directory@.len() ==> mid.directory@[s] == before.directory@[s]);
            assert forall|s: int| 0 <= s < self.directory@.len() implies (#[trigger] self.directory@[s])
                < self.buckets@.len() by {
                assert(before.directory@[s] < before.buckets@.len());
            }
            assert(self.shape_ok());
            assert forall|c: int, j: int|
                0 <= c < self.buckets@.len() && 0 <= j < self.buckets@[c].elements().len() implies #[trigger] self.placed(
                c,
                j,
            ) by {
                let element = self.buckets@[c].elements()[j];
                before.lemma_home(element.0@);
                if c == n {
                    let k = src1[j];
                    assert(part1[j] == all[k]);
                    assert(before.placed(b as int, k));
                } else if c == n + 1 {
                    let k = src2[j];
                    assert(part2[j] == all[k]);
                    assert(before.placed(b as int, k));
                } else if c == b {
                } else {
                    assert(self.buckets@[c] == before.buckets@[c]);
                    assert(before.placed(c, j));
                }
            }
            assert forall|id: K::V| #[trigger] self.contents@.contains_key(id) implies has_key(
                self.buckets@[self.directory@[self.slot(id)] as int].elements(),
                id,
            ) by {
                before.lemma_home(id);
                let d = before.directory@[before.slot(id)] as int;
                assert(has_key(before.buckets@[d].elements(), id));
                if d == b {
                    let k = choose|k: int| 0 <= k < all.len() && (#[trigger] all[k]).0@ == id;
                    if Self::low_side(depth, id, high_bit) {
                        assert(part1[dst[k]].0@ == id);
                    } else {
                        assert(part2[dst[k]].0@ == id);
                    }
                } else {
                    assert(self.buckets@[d] == before.buckets@[d]);
                }
            }
            assert forall|c: int| 0 <= c < self.buckets@.len() implies distinct_keys(
                #[trigger] self.buckets@[c].elements(),
            ) by {
                if c < n && c != b {
                    assert(self.buckets@[c] == before.buckets@[c]);
                    assert(distinct_keys(before.buckets@[c].elements()));
                }
            }
            assert(part1 == Self::half(all, depth, high_bit, true));
            assert(part2 == Self::half(all, depth, high_bit, false));
            assert(self.buckets@[b as int].elements() =~= Seq::<(K, V)>::empty());
            assert forall|c: int| 0 <= c < n && c != b implies #[trigger] self.buckets@[c]
                == before.buckets@[c] by {
                assert(mid.buckets@[c] == before.buckets@[c]);
            }
            assert forall|id: K::V| #[trigger]
                self.home(id) == if before.home(id) == b {
                    if Self::low_side(depth, id, high_bit) {
                        n as int
                    } else {
                        n + 1
                    }
                } else {
                    before.home(id)
                } by {
                before.lemma_slot_in_directory(id);
                let s = before.slot(id);
                assert(self.slot(id) == s);
                assert(mid.directory@[s] == before.directory@[s]);
                assert((s as u64) == slot_of(K::spec_hash(id), depth));
            }
        }
    }

    /// Stores `value` under `key`, in place of what was stored under it, and
    /// makes the element the most recently used of its bucket: it goes to
    /// the back of the queue of the bucket that the directory names for the
    /// key, and that bucket is marked as used. Says whether the key is new.
    /// A bucket that is full after that is split into two new buckets, and
    /// the directory doubles first where the bucket's depth has reached the
    /// directory's.
    pub fn put(&mut self, key: K, value: V) -> (added: bool)
        requires
            old(self).wf(),
            old(self)@.dom().len() < usize::MAX,
        ensures
            final(self).wf(),
            final(self)@ == old(self)@.insert(key@, value@),
            added == !old(self)@.contains_key(key@),
            final(self).spec_num_buckets() >= old(self).spec_num_buckets(),
            0 <= old(self).home(key@) < old(self).spec_num_buckets(),
            final(self).spec_num_buckets() == old(self).spec_num_buckets() ==> {
                let home = old(self).home(key@);
                let before = old(self).bucket_elements(home);
                let after = final(self).bucket_elements(home);
                &&& final(self).spec_directory() == old(self).spec_directory()
                &&& final(self).spec_global_depth() == old(self).spec_global_depth()
                &&& final(self).bucket_accessed(home)
                &&& forall|c: int|
                    0 <= c < old(self).spec_num_buckets() && c != home
                        ==> #[trigger] final(self).bucket_elements(c) == old(self).bucket_elements(c)
                        && final(self).bucket_accessed(c) == old(self).bucket_accessed(c)
                &&& requeued(before, after, (key, value), added)
            },
            final(self).spec_num_buckets() != old(self).spec_num_buckets() ==> {
                let home = old(self).home(key@);
                let n = old(self).spec_num_buckets();
                let before = old(self).bucket_elements(home);
                &&& final(self).spec_num_buckets() == n + 2
                &&& final(self).bucket_elements(home) == Seq::<(K, V)>::empty()
                &&& final(self).bucket_accessed(n) && final(self).bucket_accessed(n + 1)
                &&& forall|c: int|
                    0 <= c < n && c != home ==> #[trigger] final(self).bucket_elements(c) == old(
                        self,
                    ).bucket_elements(c) && final(self).bucket_accessed(c) == old(
                        self,
                    ).bucket_accessed(c)
                &&& exists|queue: Seq<(K, V)>| #[trigger]
                    requeued(before, queue, (key, value), added) && final(self).bucket_elements(n)
                        == old(self).lower_half(home, queue) && final(self).bucket_elements(n + 1)
                        == old(self).upper_half(home, queue)
            },
            0 <= final(self).home(key@) < final(self).spec_num_buckets(),
            final(self).bucket_accessed(final(self).home(key@)),
            final(self).bucket_elements(final(self).home(key@)).len() > 0,
            final(self).bucket_elements(final(self).home(key@)).last() == (key, value),
    {
        let index = self.slot_for(&key) as usize;
        proof {
            old(self).lemma_home(key@);
        }
        let b = self.directory[index];
        let ghost id = key@;
        let ghost val = value@;
        let ghost element = (key, value);
        let added = self.buckets[b].add_element_ignore((key, value));
        proof {
            self.contents = Ghost(self.contents@.insert(id, val));
        }
        if added {
            proof {
                if old(self).contents@.contains_key(id) {
                    assert(has_key(old(self).buckets@[b as int].elements(), id));
                }
            }
            self.current_size += 1;
        }
        proof {
            self.lemma_after_insertion(*old(self), b as int, element, added);
            assert(old(self).home(id) == b as int);
            let before = old(self).bucket_elements(b as int);
            let after = self.bucket_elements(b as int);
            if !added {
                let i = choose|i: int|
                    0 <= i < before.len() && (#[trigger] before[i]).0@ == id && after == before.remove(
                        i,
                    ).push(element);
                assert(0 <= i < before.len() && before[i].0@ == id && after == before.remove(i).push(
                    element,
                ));
            }
            assert(requeued(before, after, element, added));
            assert(after.len() > 0 && after.last() == element);
            assert(self.home(id) == b as int);
        }
        let ghost queue = self.bucket_elements(b as int);
        let ghost stored = *self;
        let local_depth = self.buckets[b].get_local_depth();
        let is_full = self.buckets[b].is_full();
        if is_full && local_depth < 63 {
            if local_depth == self.global_depth && self.global_depth < MAX_GLOBAL_DEPTH {
                proof {
                    lemma_slot_bound(K::spec_hash(id), self.global_depth as u64);
                }
                self.double_directory();
                assert(self.directory@[index as int] == b);
            }
            let ghost doubled = *self;
            proof {
                // The element lies in the bucket, so the directory names the
                // bucket for its key.
                assert(doubled.buckets@[b as int].elements() == queue);
                assert(doubled.placed(b as int, queue.len() - 1));
                assert(doubled.home(id) == b as int);
                assert(doubled.global_depth == old(self).split_depth(b as int));
            }
            self.split_bucket(index);
            proof {
                let n = old(self).spec_num_buckets();
                let depth = doubled.global_depth;
                let high_bit = old(self).split_bit(b as int);
                Self::lemma_half_last(queue, depth, high_bit);
                assert(self.bucket_elements(n) == old(self).lower_half(b as int, queue));
                assert(self.bucket_elements(n + 1) == old(self).upper_half(b as int, queue));
                assert(requeued(old(self).bucket_elements(b as int), queue, element, added));
                assert forall|c: int| 0 <= c < n && c != b implies #[trigger] self.bucket_elements(c)
                    == old(self).bucket_elements(c) && self.bucket_accessed(c) == old(
                    self,
                ).bucket_accessed(c) by {
                    assert(self.buckets@[c] == doubled.buckets@[c]);
                    assert(stored.buckets@[c] == old(self).buckets@[c]);
                }
            }
        }
        added
    }

    /// Putting `element` at the back of bucket `b`, in place of the element
    /// that had its key, and recording it in the view leaves a consistent
    /// table.
    proof fn lemma_after_insertion(&self, before: Self, b: int, element: (K, V), added: bool)
        requires
            before.wf(),
            0 <= b < before.buckets@.len(),
            before.directory@[before.slot(element.0@)] == b,
            self.global_depth == before.global_depth,
            self.directory@ == before.directory@,
            self.buckets@.len() == before.buckets@.len(),
            forall|c: int|
                0 <= c < self.buckets@.len() && c != b ==> (#[trigger] self.buckets@[c]).elements()
                    == before.buckets@[c].elements(),
            added == !has_key(before.buckets@[b].elements(), element.0@),
            added ==> self.buckets@[b].elements() == before.buckets@[b].elements().push(element),
            !added ==> exists|i: int|
                0 <= i < before.buckets@[b].elements().len() && (
                #[trigger] before.buckets@[b].elements()[i]).0@ == element.0@
                    && self.buckets@[b].elements() == before.buckets@[b].elements().remove(i).push(
                    element,
                ),
            self.contents@ == before.contents@.insert(element.0@, element.1@),
            self.current_size == before.current_size + (if added { 1int } else { 0int }),
        ensures
            self.wf(),
            added == !before.contents@.contains_key(element.0@),
    {
        let id = element.0@;
        let was = before.buckets@[b].elements();
        let now = self.buckets@[b].elements();
        before.lemma_home(id);
        if before.contents@.contains_key(id) {
            assert(has_key(was, id));
        }
        // Where the key was there, `i` is its old position.
        let i = if added { now.len() as int } else { choose|i: int| 0 <= i < was.len() && (#[trigger] was[i]).0@ == id && now == was.remove(i).push(element) };
        if !added {
            assert(before.placed(b, i));
        }
        assert forall|c: int, j: int|
            0 <= c < self.buckets@.len() && 0 <= j < self.buckets@[c].elements().len() implies #[trigger] self.placed(
            c,
            j,
        ) by {
            if c == b {
                if j == now.len() - 1 {
                    assert(now[j] == element);
                } else {
                    let k = if j < i { j } else { j + 1 };
                    assert(now[j] == was[k]);
                    assert(before.placed(b, k));
                }
            } else {
                assert(before.placed(c, j));
            }
        }
        assert forall|other: K::V| #[trigger] self.contents@.contains_key(other) implies has_key(
            self.buckets@[self.directory@[self.slot(other)] as int].elements(),
            other,
        ) by {
            before.lemma_home(other);
            let d = self.directory@[self.slot(other)] as int;
            if other == id {
                assert(now[now.len() - 1].0@ == id);
            } else {
                assert(has_key(before.buckets@[d].elements(), other));
                if d == b {
                    let j = choose|j: int| 0 <= j < was.len() && (#[trigger] was[j]).0@ == other;
                    if j < i {
                        assert(now[j].0@ == other);
                    } else {
                        assert(now[j - 1].0@ == other);
                    }
                }
            }
        }
        assert forall|c: int| 0 <= c < self.buckets@.len() implies distinct_keys(
            #[trigger] self.buckets@[c].elements(),
        ) by {
            if c == b {
                assert(distinct_keys(was));
                assert forall|x: int, y: int| 0 <= x < y < now.len() implies (#[trigger] now[x]).0@ != (
                #[trigger] now[y]).0@ by {
                    let ox = if x < i { x } else { x + 1 };
                    assert(now[x] == was[ox]);
                    if y < now.len() - 1 {
                        let oy = if y < i { y } else { y + 1 };
                        assert(now[y] == was[oy]);
                    } else {
                        assert(now[y] == element);
                    }
                }
            } else {
                assert(distinct_keys(before.buckets@[c].elements()));
            }
        }
        assert(self.contents@.dom() =~= before.contents@.dom().insert(id));
    }
}

} // verus!
