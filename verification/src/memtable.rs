//! The memtable: the entries that were written last, held in memory in
//! ascending order of their keys.

use crate::algorithm::strictly_ascending;
use crate::avl::{lemma_upsert, upsert, AvlTree};
use crate::sst_util::{holds_key, in_range, lookup};
use crate::types::{Entry, Key, Size, Value};
use vstd::prelude::*;

verus! {

#[derive(Debug)]
pub struct Memtable {
    tree: AvlTree,
}

impl View for Memtable {
    type V = Seq<Entry>;

    /// The entries of the memtable in ascending order of their keys.
    closed spec fn view(&self) -> Seq<Entry> {
        self.tree.entries()
    }
}

impl Memtable {
    /// The tree of the memtable is a search tree that records its size.
    pub closed spec fn wf(&self) -> bool {
        self.tree.wf()
    }

    /// The keys of a memtable ascend strictly, so that no key occurs twice,
    /// and its entries can be counted.
    pub proof fn lemma_ascending(&self)
        requires
            self.wf(),
        ensures
            strictly_ascending(self@),
            self@.len() <= usize::MAX,
    {
    }

    /// An empty memtable.
    pub fn new() -> (memtable: Self)
        ensures
            memtable.wf(),
            memtable@ == Seq::<Entry>::empty(),
    {
        Memtable { tree: AvlTree::new() }
    }

    /// Number of entries.
    pub fn len(&self) -> (len: Size)
        requires
            self.wf(),
        ensures
            len == self@.len(),
    {
        self.tree.len()
    }

    /// Sets `key` to `value`, in place of the value that it had.
    pub fn put(&mut self, key: Key, value: Value)
        requires
            old(self).wf(),
            old(self)@.len() < usize::MAX,
        ensures
            final(self).wf(),
            final(self)@ == upsert(old(self)@, key, value),
            lookup(final(self)@, key) == Some(value),
            forall|other: Key|
                other != key ==> #[trigger] lookup(final(self)@, other) == lookup(old(self)@, other),
            final(self)@.len() == old(self)@.len() + (if holds_key(old(self)@, key) {
                0int
            } else {
                1int
            }),
    {
        proof {
            lemma_upsert(self@, key, value);
        }
        self.tree.insert(key, value);
    }

    /// The value of `key`, if the memtable holds the key.
    pub fn get(&self, key: Key) -> (found: Option<Value>)
        requires
            self.wf(),
        ensures
            found == lookup(self@, key),
    {
        self.tree.search(key)
    }

    /// Takes every entry out.
    pub fn clear(&mut self)
        ensures
            final(self).wf(),
            final(self)@ == Seq::<Entry>::empty(),
    {
        self.tree = AvlTree::new()
    }

    /// The entries with keys from `key1` to `key2`, both included, in
    /// ascending order.
    pub fn scan(&self, key1: Key, key2: Key) -> (found: Vec<Entry>)
        requires
            self.wf(),
        ensures
            found@ == in_range(self@, key1, key2),
    {
        self.tree.range(key1, key2)
    }

    /// All entries in ascending order of their keys.
    pub fn as_vec(&self) -> (entries: Vec<Entry>)
        requires
            self.wf(),
        ensures
            entries@ == self@,
    {
        self.tree.to_vec()
    }
}

} // verus!
