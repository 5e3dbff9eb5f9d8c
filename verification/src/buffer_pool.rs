//! A bounded cache of pages, keyed by the path of a file and the index of a
//! page in it. Frames live in a hash table of buckets; a clock hand that
//! moves from bucket to bucket picks the bucket to evict from, and the
//! bucket gives up its least recently used frame.

use crate::extendible_hash_table::{ExtendibleHashTable, TableKey, MAX_DIRECTORY_SIZE};
use crate::types::{Page, Size};
use std::hash::Hasher;
use vstd::bytes::{spec_u64_to_le_bytes, u64_to_le_bytes};
use vstd::prelude::*;
use vstd::slice::slice_to_vec;
use vstd::string::StringExecFns;
use vstd::utf8::encode_utf8;

verus! {

/// The 64-bit xxHash of `bytes` under seed 0.
pub uninterp spec fn xxhash64(bytes: Seq<u8>) -> u64;

/// Feeds `bytes` to a `twox_hash::XxHash64` made with seed 0 and returns
/// what `finish` gives: a function of the bytes alone.
#[verifier::external_body]
fn xxhash64_of(bytes: &[u8]) -> (hash: u64)
    ensures
        hash == xxhash64(bytes@),
{
    let mut hasher = twox_hash::XxHash64::with_seed(0);
    hasher.write(bytes);
    hasher.finish()
}

/// The bytes that the key of a frame is hashed by: the UTF-8 bytes of the
/// path, followed by the eight little-endian bytes of the page index.
pub open spec fn page_key_bytes(path: Seq<char>, page: Page) -> Seq<u8> {
    encode_utf8(path) + spec_u64_to_le_bytes(page as u64)
}

/// The key of a frame: a file and the index of one of its pages.
pub struct PageKey {
    pub path: String,
    pub page: Page,
}

impl View for PageKey {
    type V = (Seq<char>, Page);

    open spec fn view(&self) -> (Seq<char>, Page) {
        (self.path@, self.page)
    }
}

fn same_text(a: &String, b: &String) -> (same: bool)
    ensures
        same == (a@ == b@),
{
    *a == *b
}

impl TableKey for PageKey {
    open spec fn spec_hash(id: (Seq<char>, Page)) -> u64 {
        xxhash64(page_key_bytes(id.0, id.1))
    }

    fn hash_code(&self) -> (hash: u64) {
        let mut bytes: Vec<u8> = slice_to_vec(self.path.as_str().as_bytes());
        let mut tail = u64_to_le_bytes(self.page as u64);
        bytes.append(&mut tail);
        xxhash64_of(bytes.as_slice())
    }

    fn same_key(&self, other: &Self) -> (same: bool) {
        self.page == other.page && same_text(&self.path, &other.path)
    }

    fn duplicate(&self) -> (copy: Self) {
        PageKey { path: self.path.clone(), page: self.page }
    }
}

/// The pages of one file that were put into the pool.
pub struct PathPages {
    path: String,
    pages: Vec<Page>,
}

/// Some entry of `index` for `path` lists `page`.
pub open spec fn listed(index: Seq<(Seq<char>, Seq<Page>)>, path: Seq<char>, page: Page) -> bool {
    exists|e: int, x: int|
        0 <= e < index.len() && 0 <= x < index[e].1.len() && index[e].0 == path
            && #[trigger] index[e].1[x] == page
}

/// What a reverse index records: for each entry its path and its pages.
pub closed spec fn index_view(index: Seq<PathPages>) -> Seq<(Seq<char>, Seq<Page>)> {
    Seq::new(index.len(), |e: int| (index[e].path@, index[e].pages@))
}

/// Position `start + steps` on a ring of `size` positions, for at most
/// `size` steps.
pub open spec fn ring(start: int, steps: int, size: int) -> int {
    if start + steps < size {
        start + steps
    } else {
        start + steps - size
    }
}

pub struct BufferPool {
    frames: ExtendibleHashTable<PageKey, Vec<u8>>,
    filename_pages: Vec<PathPages>,
    capacity: Size,
    clock_handle: usize,
}

impl View for BufferPool {
    type V = Map<(Seq<char>, Page), Seq<u8>>;

    /// The frames of the pool: the bytes cached for each file and page.
    closed spec fn view(&self) -> Map<(Seq<char>, Page), Seq<u8>> {
        self.frames@
    }
}

impl BufferPool {
    pub closed spec fn spec_capacity(&self) -> Size {
        self.capacity
    }

    /// The reverse index: for each file the pages that were put into the
    /// pool under its path.
    pub closed spec fn page_index(&self) -> Seq<(Seq<char>, Seq<Page>)> {
        index_view(self.filename_pages@)
    }

    /// The pool is consistent but for its size: the table of frames is, the
    /// clock hand points at a bucket, and the reverse index lists the pages
    /// of the frames, and no others.
    pub closed spec fn inner_ok(&self) -> bool {
        &&& self.frames.wf()
        &&& self.clock_handle < self.frames.spec_num_buckets()
        &&& forall|key: (Seq<char>, Page)| #[trigger]
            self.frames@.contains_key(key) ==> listed(self.page_index(), key.0, key.1)
        &&& forall|path: Seq<char>, page: Page| #[trigger]
            listed(self.page_index(), path, page) ==> self.frames@.contains_key((path, page))
    }

    /// The frame of page `page` of the file at `path` is the most recently
    /// used frame of its bucket, the last that eviction takes from it, and
    /// the bucket is marked as used, so that the clock hand passes it once
    /// before it evicts from it.
    pub closed spec fn most_recent(&self, path: Seq<char>, page: Page) -> bool {
        let home = self.frames.home((path, page));
        &&& 0 <= home < self.frames.spec_num_buckets()
        &&& self.frames.bucket_accessed(home)
        &&& self.frames.bucket_elements(home).len() > 0
        &&& self.frames.bucket_elements(home).last().0@ == (path, page)
    }

    /// The frame of page `page` of the file at `path` is the least recently
    /// used frame of a bucket: the first that eviction takes from it.
    pub closed spec fn least_recent(&self, path: Seq<char>, page: Page) -> bool {
        exists|b: int|
            0 <= b < self.frames.spec_num_buckets() && (#[trigger] self.frames.bucket_elements(
                b,
            )).len() > 0 && self.frames.bucket_elements(b)[0].0@ == (path, page)
    }

    /// The pool is consistent and holds no more frames than its capacity
    /// allows.
    pub closed spec fn wf(&self) -> bool {
        &&& self.inner_ok()
        &&& self.frames@.dom().len() <= self.capacity
    }

    /// The reverse index lists exactly the pages that the pool holds
    /// frames for.
    pub proof fn lemma_reverse_index(&self, path: Seq<char>, page: Page)
        requires
            self.wf(),
        ensures
            listed(self.page_index(), path, page) == self@.contains_key((path, page)),
    {
        if self@.contains_key((path, page)) {
            assert(self.frames@.contains_key((path, page)));
        }
    }

    /// An empty pool of `initial_size` buckets for at most `capacity`
    /// frames.
    pub fn new(initial_size: Size, capacity: Size) -> (pool: Self)
        requires
            1 <= initial_size <= MAX_DIRECTORY_SIZE,
        ensures
            pool.wf(),
            pool@ == Map::<(Seq<char>, Page), Seq<u8>>::empty(),
            pool.spec_capacity() == capacity,
    {
        BufferPool {
            frames: ExtendibleHashTable::with_capacity_buckets(10, initial_size, initial_size),
            filename_pages: Vec::new(),
            capacity,
            clock_handle: 0,
        }
    }

    /// Number of frames in the pool.
    pub fn len(&self) -> (len: Size)
        requires
            self.wf(),
        ensures
            len == self@.dom().len(),
            len <= self.spec_capacity(),
    {
        self.frames.len()
    }

    pub fn capacity(&self) -> (capacity: Size)
        ensures
            capacity == self.spec_capacity(),
    {
        self.capacity
    }

    /// Moves the clock hand to the next bucket and marks that bucket as
    /// unused.
    fn move_clock_handle(&mut self)
        requires
            old(self).inner_ok(),
        ensures
            final(self).inner_ok(),
            final(self)@ == old(self)@,
            final(self).capacity == old(self).capacity,
            final(self).filename_pages == old(self).filename_pages,
            final(self).frames.spec_num_buckets() == old(self).frames.spec_num_buckets(),
            final(self).clock_handle == ring(
                old(self).clock_handle as int,
                1,
                old(self).frames.spec_num_buckets(),
            ),
            forall|b: int|
                0 <= b < final(self).frames.spec_num_buckets()
                    ==> #[trigger] final(self).frames.bucket_elements(b) == old(
                    self,
                ).frames.bucket_elements(b),
    {
        let buckets: usize = self.frames.num_buckets();
        let next: usize = if self.clock_handle + 1 < buckets {
            self.clock_handle + 1
        } else {
            0
        };
        self.clock_handle = next;
        self.frames.set_accessed(next, false);
        proof {
            assert(self.page_index() =~= old(self).page_index());
        }
    }

    /// Evicts one frame, if there is any: the least recently used frame of
    /// the first bucket under the clock hand that was not used since the
    /// hand last came by.
    fn evict_one(&mut self) -> (evicted: bool)
        requires
            old(self).inner_ok(),
        ensures
            final(self).inner_ok(),
            final(self).capacity == old(self).capacity,
            evicted == (old(self)@.dom().len() > 0),
            evicted ==> exists|key: (Seq<char>, Page)| #[trigger]
                old(self)@.contains_key(key) && final(self)@ == old(self)@.remove(key) && old(
                    self,
                ).least_recent(key.0, key.1),
            !evicted ==> final(self)@ == old(self)@,
    {
        let buckets: usize = self.frames.num_buckets();
        let mut visited: usize = 0;
        while visited < buckets
            invariant
                self.frames.spec_num_buckets() == old(self).frames.spec_num_buckets(),
                forall|b: int|
                    0 <= b < buckets ==> #[trigger] self.frames.bucket_elements(b) == old(
                        self,
                    ).frames.bucket_elements(b),
                self.inner_ok(),
                self@ == old(self)@,
                self.capacity == old(self).capacity,
                buckets == self.frames.spec_num_buckets(),
                0 <= visited <= buckets,
            decreases buckets - visited,
        {
            let handle: usize = self.clock_handle;
            if !self.frames.accessed(handle) {
                let ghost snap = *self;
                match self.frames.bucket_remove_lru(handle) {
                    Some(key) => {
                        forget_page(&mut self.filename_pages, &key.path, key.page);
                        proof {
                            self.lemma_fewer_frames(snap, key@);
                            snap.frames.lemma_view_finite();
                            assert(snap@.dom().remove(key@).len() == snap@.dom().len() - 1);
                            assert(old(self).frames.bucket_elements(handle as int)
                                == snap.frames.bucket_elements(handle as int));
                            assert(old(self).least_recent(key@.0, key@.1));
                        }
                        self.move_clock_handle();
                        return true;
                    },
                    None => {},
                }
                proof {
                    assert(self.page_index() == snap.page_index());
                }
            }
            self.move_clock_handle();
            visited += 1;
        }
        let ghost start: int = self.clock_handle as int;
        let mut swept: usize = 0;
        while swept < buckets
            invariant
                self.frames.spec_num_buckets() == old(self).frames.spec_num_buckets(),
                forall|b: int|
                    0 <= b < buckets ==> #[trigger] self.frames.bucket_elements(b) == old(
                        self,
                    ).frames.bucket_elements(b),
                self.inner_ok(),
                self@ == old(self)@,
                self.capacity == old(self).capacity,
                buckets == self.frames.spec_num_buckets(),
                0 <= swept <= buckets,
                0 <= start < buckets,
                self.clock_handle == ring(start, swept as int, buckets as int),
                forall|t: int|
                    0 <= t < swept ==> (#[trigger] self.frames.bucket_elements(
                        ring(start, t, buckets as int),
                    )).len() == 0,
            decreases buckets - swept,
        {
            let handle: usize = self.clock_handle;
            let ghost snap = *self;
            match self.frames.bucket_remove_lru(handle) {
                Some(key) => {
                    forget_page(&mut self.filename_pages, &key.path, key.page);
                    proof {
                        self.lemma_fewer_frames(snap, key@);
                        snap.frames.lemma_view_finite();
                        assert(snap@.dom().remove(key@).len() == snap@.dom().len() - 1);
                        assert(old(self).frames.bucket_elements(handle as int)
                            == snap.frames.bucket_elements(handle as int));
                        assert(old(self).least_recent(key@.0, key@.1));
                    }
                    self.move_clock_handle();
                    return true;
                },
                None => {},
            }
            proof {
                assert(self.page_index() == snap.page_index());
            }
            self.move_clock_handle();
            swept += 1;
        }
        proof {
            self.frames.lemma_view_finite();
            if self@.dom().len() > 0 {
                let key = self@.dom().choose();
                assert(self.frames@.contains_key(key));
                let b = self.frames.lemma_key_in_bucket(key);
                let t = if b >= start {
                    b - start
                } else {
                    b + buckets - start
                };
                assert(ring(start, t, buckets as int) == b);
                assert(self.frames.bucket_elements(ring(start, t, buckets as int)).len() == 0);
            }
        }
        false
    }

    /// Dropping a frame from a consistent pool, and its page from the
    /// reverse index, leaves the pool consistent.
    proof fn lemma_fewer_frames(&self, before: Self, gone: (Seq<char>, Page))
        requires
            before.inner_ok(),
            self.frames.wf(),
            self.frames@ == before.frames@.remove(gone),
            self.frames.spec_num_buckets() == before.frames.spec_num_buckets(),
            self.clock_handle == before.clock_handle,
            forall|p: Seq<char>, i: Page|
                listed(self.page_index(), p, i) <==> listed(before.page_index(), p, i) && !(p
                    == gone.0 && i == gone.1),
        ensures
            self.inner_ok(),
    {
        assert forall|key: (Seq<char>, Page)| #[trigger]
            self.frames@.contains_key(key) implies listed(self.page_index(), key.0, key.1) by {
            assert(before.frames@.contains_key(key));
            assert(listed(before.page_index(), key.0, key.1));
        }
        assert forall|path: Seq<char>, page: Page| #[trigger]
            listed(self.page_index(), path, page) implies self.frames@.contains_key((path, page)) by {
            assert(listed(before.page_index(), path, page));
        }
    }

    /// Evicts frames until `num_to_evict` are gone or the pool is empty.
    fn evict(&mut self, num_to_evict: Size)
        requires
            old(self).inner_ok(),
        ensures
            final(self).inner_ok(),
            final(self).capacity == old(self).capacity,
            final(self)@.submap_of(old(self)@),
            final(self)@.dom().len() == if old(self)@.dom().len() >= num_to_evict {
                old(self)@.dom().len() - num_to_evict
            } else {
                0
            },
            num_to_evict <= 1 ==> forall|key: (Seq<char>, Page)|
                old(self)@.contains_key(key) && !(#[trigger] final(self)@.contains_key(key)) ==> old(
                    self,
                ).least_recent(key.0, key.1),
    {
        let mut num_evicted: Size = 0;
        while num_evicted < num_to_evict
            invariant_except_break
                num_evicted == 0 ==> *self == *old(self),
            invariant
                num_to_evict <= 1 ==> forall|key: (Seq<char>, Page)|
                    old(self)@.contains_key(key) && !(#[trigger] self@.contains_key(key)) ==> old(
                        self,
                    ).least_recent(key.0, key.1),
                self.inner_ok(),
                self.capacity == old(self).capacity,
                self@.submap_of(old(self)@),
                0 <= num_evicted <= num_to_evict,
                self@.dom().len() == old(self)@.dom().len() - num_evicted,
            ensures
                self@.dom().len() == if old(self)@.dom().len() >= num_to_evict {
                    old(self)@.dom().len() - num_to_evict
                } else {
                    0
                },
            decreases num_to_evict - num_evicted,
        {
            let ghost current = self@;
            let ghost snap = *self;
            if !self.evict_one() {
                break ;
            }
            proof {
                let key = choose|key: (Seq<char>, Page)| #[trigger]
                    current.contains_key(key) && self@ == current.remove(key) && snap.least_recent(
                        key.0,
                        key.1,
                    );
                snap.frames.lemma_view_finite();
                assert(self@.dom() =~= current.dom().remove(key));
            }
            num_evicted += 1;
        }
    }

    /// Sets the capacity, evicting frames where the pool holds more.
    pub fn set_capacity(&mut self, capacity: Size)
        requires
            old(self).wf(),
        ensures
            final(self).wf(),
            final(self).spec_capacity() == capacity,
            final(self)@.submap_of(old(self)@),
            final(self)@.dom().len() == if old(self)@.dom().len() <= capacity {
                old(self)@.dom().len()
            } else {
                capacity as nat
            },
    {
        self.capacity = capacity;
        proof {
            assert(self.page_index() =~= old(self).page_index());
        }
        let len = self.frames.len();
        if len > capacity {
            self.evict(len - capacity);
        }
    }

    /// The bytes cached for page `page_index` of the file at `path`, if any.
    /// The clock hand moves on, and the frame becomes the most recently
    /// used of its bucket.
    pub fn get(&mut self, path: &str, page_index: Page) -> (frame: Option<Vec<u8>>)
        requires
            old(self).wf(),
        ensures
            final(self).wf(),
            final(self)@ == old(self)@,
            final(self).spec_capacity() == old(self).spec_capacity(),
            match frame {
                Some(bytes) => old(self)@.contains_key((path@, page_index)) && bytes@ == old(
                    self,
                )@[(path@, page_index)],
                None => !old(self)@.contains_key((path@, page_index)),
            },
            frame is Some ==> final(self).most_recent(path@, page_index),
    {
        self.move_clock_handle();
        let key = PageKey { path: String::from_str(path), page: page_index };
        let ghost moved = *self;
        let frame = self.frames.get(&key);
        proof {
            assert(self.page_index() =~= old(self).page_index());
            if frame is Some {
                let home = moved.frames.home(key@);
                let before = moved.frames.bucket_elements(home);
                let after = self.frames.bucket_elements(home);
                let i = choose|i: int|
                    0 <= i < before.len() && (#[trigger] before[i]).0@ == key@ && after
                        == before.remove(i).push(before[i]);
                assert(after.last() == before[i]);
                assert(self.frames.home(key@) == home);
            }
        }
        frame
    }

    /// Stores `page_data` as the frame of page `page_index` of the file at
    /// `path`, in place of an earlier frame for that page; the frame is the
    /// most recently used of its bucket then. A full pool evicts one frame
    /// first, which is the least recently used frame of its bucket. A pool
    /// of capacity 0 stores nothing.
    pub fn insert(&mut self, path: &str, page_index: Page, page_data: &[u8])
        requires
            old(self).wf(),
        ensures
            final(self).wf(),
            final(self).spec_capacity() == old(self).spec_capacity(),
            old(self).spec_capacity() == 0 ==> final(self)@ == old(self)@,
            old(self).spec_capacity() > 0 ==> final(self)@.contains_key((path@, page_index))
                && final(self)@[(path@, page_index)] == page_data@ && final(self)@.remove(
                (path@, page_index),
            ).submap_of(old(self)@),
            0 < old(self).spec_capacity() && old(self)@.dom().len() < old(self).spec_capacity()
                ==> final(self)@ == old(self)@.insert((path@, page_index), page_data@),
            final(self)@.dom().len() + 1 >= old(self)@.dom().len(),
            old(self).spec_capacity() > 0 ==> final(self).most_recent(path@, page_index),
            forall|key: (Seq<char>, Page)|
                old(self)@.contains_key(key) && !(#[trigger] final(self)@.contains_key(key)) ==> old(
                    self,
                ).least_recent(key.0, key.1),
    {
        if self.capacity == 0 {
            return ;
        }
        let len = self.frames.len();
        if len >= self.capacity {
            self.evict(len - self.capacity + 1);
        }
        let ghost evicted = *self;
        let key = PageKey { path: String::from_str(path), page: page_index };
        let data = slice_to_vec(page_data);
        proof {
            evicted.frames.lemma_view_finite();
            assert(evicted@.submap_of(old(self)@));
            assert(evicted@.dom().len() < self.capacity);
        }
        self.frames.put(key, data);
        let ghost stored = *self;
        note_page(&mut self.filename_pages, path, page_index);
        proof {
            let id = (path@, page_index);
            assert(self.frames == stored.frames);
            assert(self.frames@ == evicted.frames@.insert(id, page_data@));
            assert(self.frames@.dom() =~= evicted.frames@.dom().insert(id));
            assert forall|key: (Seq<char>, Page)| #[trigger]
                self.frames@.contains_key(key) implies listed(self.page_index(), key.0, key.1) by {
                if key != id {
                    assert(evicted.frames@.contains_key(key));
                    assert(listed(evicted.page_index(), key.0, key.1));
                }
            }
            assert forall|p: Seq<char>, i: Page| #[trigger]
                listed(self.page_index(), p, i) implies self.frames@.contains_key((p, i)) by {
                if !(p == path@ && i == page_index) {
                    assert(listed(evicted.page_index(), p, i));
                    assert(evicted.frames@.contains_key((p, i)));
                }
            }
            assert(self.inner_ok());
            assert(self.frames@.dom().len() <= evicted.frames@.dom().len() + 1);
            assert(self.wf());
            assert(self@.contains_key(id) && self@[id] == page_data@);
            assert(self@.remove(id).submap_of(old(self)@)) by {
                assert forall|key: (Seq<char>, Page)| #[trigger]
                    self@.remove(id).dom().contains(key) implies old(self)@.dom().contains(key)
                    && self@.remove(id)[key] == old(self)@[key] by {
                    assert(key != id);
                    assert(self@.contains_key(key));
                    assert(self@ == evicted@.insert(id, page_data@));
                    assert(evicted@.contains_key(key));
                    assert(self@[key] == evicted@[key]);
                    assert(evicted@.dom().contains(key));
                    let there = old(self)@.dom().contains(key);
                    assert(evicted@.submap_of(old(self)@));
                    assert(there);
                    assert(evicted@[key] == old(self)@[key]);
                }
            }
            if old(self)@.dom().len() < old(self).capacity {
                assert(evicted@ == old(self)@);
                assert(self@ =~= old(self)@.insert(id, page_data@));
            }
        }
    }

    /// Drops every frame of the file at `path`.
    pub fn remove(&mut self, path: &str)
        requires
            old(self).wf(),
        ensures
            final(self).wf(),
            final(self).spec_capacity() == old(self).spec_capacity(),
            final(self)@.submap_of(old(self)@),
            forall|key: (Seq<char>, Page)|
                final(self)@.contains_key(key) <==> old(self)@.contains_key(key) && key.0 != path@,
    {
        let target = String::from_str(path);
        let mut e: usize = 0;
        while e < self.filename_pages.len()
            invariant
                self.frames.wf(),
                self.clock_handle < self.frames.spec_num_buckets(),
                self@.dom().len() <= self.capacity,
                forall|key: (Seq<char>, Page)| #[trigger]
                    self@.contains_key(key) ==> listed(self.page_index(), key.0, key.1),
                forall|p: Seq<char>, i: Page| #[trigger]
                    listed(self.page_index(), p, i) && p != path@ ==> self@.contains_key((p, i)),
                self.capacity == old(self).capacity,
                target@ == path@,
                0 <= e <= self.filename_pages@.len(),
                self@.submap_of(old(self)@),
                forall|key: (Seq<char>, Page)|
                    old(self)@.contains_key(key) && key.0 != path@ ==> self@.contains_key(key),
                forall|i: int| 0 <= i < e ==> (#[trigger] self.page_index()[i]).0 != path@,
            decreases self.filename_pages@.len() - e,
        {
            if same_text(&self.filename_pages[e].path, &target) {
                let ghost before = *self;
                let entry = self.filename_pages.remove(e);
                proof {
                    lemma_listed_after_removal(before.filename_pages@, e as int);
                    self.frames.lemma_view_finite();
                    assert(self.filename_pages@ == before.filename_pages@.remove(e as int));
                    assert(self.page_index() == before.page_index().remove(e as int));
                    assert forall|i: int| 0 <= i < e implies (#[trigger] self.page_index()[i]).0
                        != path@ by {
                        assert(self.page_index()[i] == before.page_index()[i]);
                    }
                    assert(entry.path@ == before.page_index()[e as int].0);
                    assert forall|p: Seq<char>, i: Page| #[trigger]
                        listed(self.page_index(), p, i) && p != path@ implies self@.contains_key(
                        (p, i),
                    ) by {
                        assert(listed(before.page_index(), p, i));
                    }
                }
                let ghost shrunk = self.filename_pages@;
                let mut x: usize = 0;
                while x < entry.pages.len()
                    invariant
                        self.frames.wf(),
                        self.clock_handle < self.frames.spec_num_buckets(),
                        self.capacity == old(self).capacity,
                        self@.dom().len() <= self.capacity,
                        self@.dom().finite(),
                        entry.path@ == path@,
                        self.filename_pages@ == shrunk,
                        shrunk.len() == before.filename_pages@.len() - 1,
                        0 <= e <= self.filename_pages@.len(),
                        0 <= x <= entry.pages@.len(),
                        self@.submap_of(old(self)@),
                        forall|key: (Seq<char>, Page)|
                            old(self)@.contains_key(key) && key.0 != path@ ==> self@.contains_key(key),
                        forall|i: int| 0 <= i < e ==> (#[trigger] self.page_index()[i]).0 != path@,
                        forall|key: (Seq<char>, Page)| #[trigger]
                            self@.contains_key(key) ==> listed(self.page_index(), key.0, key.1) || (
                            key.0 == path@ && exists|y: int|
                                x <= y < entry.pages@.len() && #[trigger] entry.pages@[y] == key.1),
                        forall|p: Seq<char>, i: Page| #[trigger]
                            listed(self.page_index(), p, i) && p != path@ ==> self@.contains_key(
                                (p, i),
                            ),
                    decreases entry.pages@.len() - x,
                {
                    let key = PageKey { path: entry.path.clone(), page: entry.pages[x] };
                    let ghost prior = self@;
                    let ghost prior_index = self.page_index();
                    let removed = self.frames.remove(&key);
                    proof {
                        assert(self.page_index() == prior_index);
                        assert forall|p: Seq<char>, i: Page| #[trigger]
                            listed(self.page_index(), p, i) && p != path@ implies self@.contains_key(
                            (p, i),
                        ) by {
                            assert(prior.contains_key((p, i)));
                        }
                        assert(self@.dom() =~= prior.dom().remove(key@));
                        vstd::set_lib::lemma_len_subset(self@.dom(), prior.dom());
                        assert forall|other: (Seq<char>, Page)| #[trigger]
                            self@.contains_key(other) implies listed(
                            self.page_index(),
                            other.0,
                            other.1,
                        ) || (other.0 == path@ && exists|y: int|
                            x + 1 <= y < entry.pages@.len() && #[trigger] entry.pages@[y] == other.1) by {
                            assert(prior.contains_key(other));
                            if !listed(self.page_index(), other.0, other.1) {
                                let y = choose|y: int|
                                    x <= y < entry.pages@.len() && #[trigger] entry.pages@[y] == other.1;
                                assert(y != x);
                            }
                        }
                    }
                    x += 1;
                }
            } else {
                proof {
                    assert(self.page_index()[e as int].0 == self.filename_pages@[e as int].path@);
                }
                e += 1;
            }
        }
        proof {
            assert forall|p: Seq<char>, i: Page| #[trigger]
                listed(self.page_index(), p, i) implies self@.contains_key((p, i)) by {
                if p == path@ {
                    let (w, x) = choose|w: int, x: int|
                        0 <= w < self.page_index().len() && 0 <= x < self.page_index()[w].1.len()
                            && self.page_index()[w].0 == p && #[trigger] self.page_index()[w].1[x] == i;
                    assert(self.page_index()[w].0 != path@);
                }
            }
            assert forall|key: (Seq<char>, Page)| self@.contains_key(key) implies key.0 != path@ by {
                if key.0 == path@ {
                    assert(listed(self.page_index(), key.0, key.1));
                    let (i, x) = choose|i: int, x: int|
                        0 <= i < self.page_index().len() && 0 <= x < self.page_index()[i].1.len()
                            && self.page_index()[i].0 == key.0 && #[trigger] self.page_index()[i].1[x]
                            == key.1;
                    assert(self.page_index()[i].0 != path@);
                }
            }
        }
    }

    /// Hands every frame of the file at `old_path` over to `new_path`, whose
    /// earlier frames are dropped.
    pub fn rename(&mut self, old_path: &str, new_path: &str)
        requires
            old(self).wf(),
        ensures
            final(self).wf(),
            final(self).spec_capacity() == old(self).spec_capacity(),
            old_path@ == new_path@ ==> final(self)@ == old(self)@,
            old_path@ != new_path@ ==> {
                &&& forall|page: Page| !final(self)@.contains_key((old_path@, page))
                &&& forall|page: Page|
                    final(self)@.contains_key((new_path@, page)) <==> old(self)@.contains_key(
                        (old_path@, page),
                    )
                &&& forall|page: Page| #[trigger]
                    final(self)@.contains_key((new_path@, page)) ==> final(self)@[(new_path@, page)]
                        == old(self)@[(old_path@, page)]
                &&& forall|key: (Seq<char>, Page)|
                    key.0 != old_path@ && key.0 != new_path@ ==> (final(self)@.contains_key(key)
                        <==> old(self)@.contains_key(key))
                &&& forall|key: (Seq<char>, Page)|
                    key.0 != old_path@ && key.0 != new_path@ && #[trigger] final(self)@.contains_key(
                        key,
                    ) ==> final(self)@[key] == old(self)@[key]
            },
    {
        let source = String::from_str(old_path);
        let target = String::from_str(new_path);
        if same_text(&source, &target) {
            return ;
        }
        self.remove(new_path);
        let ghost mid = self@;
        let mut pending: Vec<Page> = Vec::new();
        let mut e: usize = 0;
        while e < self.filename_pages.len()
            invariant
                self.frames.wf(),
                self.clock_handle < self.frames.spec_num_buckets(),
                self.capacity == old(self).capacity,
                self@.dom().len() <= self.capacity,
                self@ == mid,
                source@ == old_path@,
                0 <= e <= self.filename_pages@.len(),
                forall|i: int| 0 <= i < e ==> (#[trigger] self.page_index()[i]).0 != old_path@,
                forall|key: (Seq<char>, Page)| #[trigger]
                    self@.contains_key(key) ==> listed(self.page_index(), key.0, key.1) || (key.0
                        == old_path@ && exists|y: int|
                        0 <= y < pending@.len() && #[trigger] pending@[y] == key.1),
                forall|p: Seq<char>, i: Page| #[trigger]
                    listed(self.page_index(), p, i) ==> self@.contains_key((p, i)),
            decreases self.filename_pages@.len() - e,
        {
            if same_text(&self.filename_pages[e].path, &source) {
                let ghost before = *self;
                let ghost gathered = pending@;
                let mut entry = self.filename_pages.remove(e);
                pending.append(&mut entry.pages);
                proof {
                    lemma_listed_after_removal(before.filename_pages@, e as int);
                    assert(self.filename_pages@ == before.filename_pages@.remove(e as int));
                    assert(self.page_index() == before.page_index().remove(e as int));
                    assert forall|i: int| 0 <= i < e implies (#[trigger] self.page_index()[i]).0
                        != old_path@ by {
                        assert(self.page_index()[i] == before.page_index()[i]);
                    }
                    let pages = before.filename_pages@[e as int].pages@;
                    assert(pending@ == gathered + pages);
                    assert forall|p: Seq<char>, i: Page| #[trigger]
                        listed(self.page_index(), p, i) implies self@.contains_key((p, i)) by {
                        assert(listed(before.page_index(), p, i));
                    }
                    assert forall|key: (Seq<char>, Page)| #[trigger]
                        self@.contains_key(key) implies listed(self.page_index(), key.0, key.1) || (
                    key.0 == old_path@ && exists|y: int|
                        0 <= y < pending@.len() && #[trigger] pending@[y] == key.1) by {
                        assert(before@.contains_key(key));
                        if listed(before.page_index(), key.0, key.1) {
                            if !listed(self.page_index(), key.0, key.1) {
                                let y = choose|y: int|
                                    0 <= y < pages.len() && #[trigger] pages[y] == key.1;
                                assert(pending@[gathered.len() + y] == key.1);
                            }
                        } else {
                            let y = choose|y: int|
                                0 <= y < gathered.len() && #[trigger] gathered[y] == key.1;
                            assert(pending@[y] == key.1);
                        }
                    }
                }
            } else {
                proof {
                    assert(self.page_index()[e as int].0 == self.filename_pages@[e as int].path@);
                }
                e += 1;
            }
        }
        proof {
            self.frames.lemma_view_finite();
        }
        let mut x: usize = 0;
        while x < pending.len()
            invariant
                self.frames.wf(),
                self.clock_handle < self.frames.spec_num_buckets(),
                self.capacity == old(self).capacity,
                self@.dom().len() <= self.capacity,
                self@.dom().finite(),
                source@ == old_path@,
                target@ == new_path@,
                old_path@ != new_path@,
                0 <= x <= pending@.len(),
                forall|key: (Seq<char>, Page)|
                    key.0 != old_path@ && key.0 != new_path@ ==> (self@.contains_key(key)
                        <==> mid.contains_key(key)),
                forall|key: (Seq<char>, Page)|
                    key.0 != new_path@ && #[trigger] self@.contains_key(key) ==> mid.contains_key(key)
                        && self@[key] == mid[key],
                forall|key: (Seq<char>, Page)| key.0 == new_path@ ==> !mid.contains_key(key),
                forall|page: Page| #[trigger]
                    self@.contains_key((new_path@, page)) ==> mid.contains_key((old_path@, page))
                        && self@[(new_path@, page)] == mid[(old_path@, page)],
                forall|page: Page| #[trigger]
                    mid.contains_key((old_path@, page)) ==> self@.contains_key((old_path@, page))
                        || self@.contains_key((new_path@, page)),
                forall|i: int|
                    0 <= i < self.page_index().len() ==> (#[trigger] self.page_index()[i]).0
                        != old_path@,
                forall|key: (Seq<char>, Page)| #[trigger]
                    self@.contains_key(key) ==> listed(self.page_index(), key.0, key.1) || (key.0
                        == old_path@ && exists|y: int|
                        x <= y < pending@.len() && #[trigger] pending@[y] == key.1),
                forall|p: Seq<char>, i: Page| #[trigger]
                    listed(self.page_index(), p, i) ==> self@.contains_key((p, i)),
            decreases pending@.len() - x,
        {
            let page: Page = pending[x];
            let key = PageKey { path: source.clone(), page };
            let ghost prior = self@;
            let ghost prior_index = self.page_index();
            match self.frames.remove(&key) {
                Some(element) => {
                    let ghost taken = self@;
                    proof {
                        assert(taken.dom() =~= prior.dom().remove(key@));
                    }
                    let moved = PageKey { path: target.clone(), page };
                    self.frames.put(moved, element.1);
                    note_page(&mut self.filename_pages, new_path, page);
                    proof {
                        let id = (new_path@, page);
                        assert(self@.dom() =~= taken.dom().insert(id));
                        assert forall|p: Seq<char>, i: Page| #[trigger]
                            listed(self.page_index(), p, i) implies self@.contains_key((p, i)) by {
                            if !(p == new_path@ && i == page) {
                                assert(listed(prior_index, p, i));
                                assert(prior.contains_key((p, i)));
                                lemma_no_entry_not_listed(prior_index, old_path@, i);
                            }
                        }
                        assert forall|other: (Seq<char>, Page)| #[trigger]
                            self@.contains_key(other) implies listed(
                            self.page_index(),
                            other.0,
                            other.1,
                        ) || (other.0 == old_path@ && exists|y: int|
                            x + 1 <= y < pending@.len() && #[trigger] pending@[y] == other.1) by {
                            if other != id {
                                assert(prior.contains_key(other));
                                if !listed(prior_index, other.0, other.1) {
                                    let y = choose|y: int|
                                        x <= y < pending@.len() && #[trigger] pending@[y] == other.1;
                                    assert(y != x);
                                }
                            }
                        }
                    }
                },
                None => {
                    proof {
                        assert(self@ =~= prior);
                        assert(self.page_index() == prior_index);
                        assert forall|p: Seq<char>, i: Page| #[trigger]
                            listed(self.page_index(), p, i) implies self@.contains_key((p, i)) by {
                            assert(prior.contains_key((p, i)));
                        }
                        assert forall|other: (Seq<char>, Page)| #[trigger]
                            self@.contains_key(other) implies listed(
                            self.page_index(),
                            other.0,
                            other.1,
                        ) || (other.0 == old_path@ && exists|y: int|
                            x + 1 <= y < pending@.len() && #[trigger] pending@[y] == other.1) by {
                            if !listed(prior_index, other.0, other.1) {
                                let y = choose|y: int|
                                    x <= y < pending@.len() && #[trigger] pending@[y] == other.1;
                                assert(y != x);
                            }
                        }
                    }
                },
            }
            x += 1;
        }
        proof {
            assert forall|page: Page| !self@.contains_key((old_path@, page)) by {
                let key = (old_path@, page);
                if self@.contains_key(key) {
                    assert(listed(self.page_index(), key.0, key.1));
                    let (i, x) = choose|i: int, x: int|
                        0 <= i < self.page_index().len() && 0 <= x < self.page_index()[i].1.len()
                            && self.page_index()[i].0 == key.0 && #[trigger] self.page_index()[i].1[x]
                            == key.1;
                    assert(self.page_index()[i].0 != old_path@);
                }
            }
            assert forall|page: Page|
                self@.contains_key((new_path@, page)) <==> old(self)@.contains_key(
                    (old_path@, page),
                ) by {
                if old(self)@.contains_key((old_path@, page)) {
                    assert(mid.contains_key((old_path@, page)));
                }
            }
        }
    }
}

/// Where no entry of a reverse index is for `path`, no page is listed
/// under it.
proof fn lemma_no_entry_not_listed(index: Seq<(Seq<char>, Seq<Page>)>, path: Seq<char>, page: Page)
    requires
        forall|i: int| 0 <= i < index.len() ==> (#[trigger] index[i]).0 != path,
    ensures
        !listed(index, path, page),
{
    if listed(index, path, page) {
        let (w, x) = choose|w: int, x: int|
            0 <= w < index.len() && 0 <= x < index[w].1.len() && index[w].0 == path
                && #[trigger] index[w].1[x] == page;
        assert(index[w].0 != path);
    }
}

/// Whether `pages` holds `page`.
fn holds_page(pages: &Vec<Page>, page: Page) -> (held: bool)
    ensures
        held == exists|x: int| 0 <= x < pages@.len() && pages@[x] == page,
{
    let mut x: usize = 0;
    while x < pages.len()
        invariant
            0 <= x <= pages@.len(),
            forall|y: int| 0 <= y < x ==> pages@[y] != page,
        decreases pages@.len() - x,
    {
        if pages[x] == page {
            return true;
        }
        x += 1;
    }
    false
}

/// Records `page` under `path` in the reverse index `index`: what was
/// listed stays listed, and nothing else is listed but the page.
fn note_page(index: &mut Vec<PathPages>, path: &str, page: Page)
    ensures
        listed(index_view(final(index)@), path@, page),
        forall|p: Seq<char>, i: Page|
            listed(index_view(old(index)@), p, i) ==> listed(index_view(final(index)@), p, i),
        forall|p: Seq<char>, i: Page|
            listed(index_view(final(index)@), p, i) ==> listed(index_view(old(index)@), p, i) || (p
                == path@ && i == page),
        final(index)@.len() >= old(index)@.len(),
        forall|e: int|
            0 <= e < old(index)@.len() ==> (#[trigger] index_view(final(index)@)[e]).0 == index_view(
                old(index)@,
            )[e].0,
        forall|e: int|
            old(index)@.len() <= e < final(index)@.len() ==> (#[trigger] index_view(
                final(index)@,
            )[e]).0 == path@,
{
    let target = String::from_str(path);
    let ghost before = index_view(index@);
    let mut e: usize = 0;
    while e < index.len()
        invariant
            0 <= e <= index@.len(),
            target@ == path@,
            index@ == old(index)@,
            before == index_view(old(index)@),
            forall|i: int| 0 <= i < e ==> (#[trigger] index@[i]).path@ != path@,
        decreases index@.len() - e,
    {
        if same_text(&index[e].path, &target) {
            if holds_page(&index[e].pages, page) {
                proof {
                    let x = choose|x: int| 0 <= x < index@[e as int].pages@.len() && index@[e as int].pages@[x] == page;
                    assert(before[e as int].1[x] == page);
                }
                return ;
            }
            index[e].pages.push(page);
            proof {
                let after = index_view(index@);
                assert(index@.len() == old(index)@.len());
                assert(forall|w: int| 0 <= w < index@.len() && w != e ==> index@[w] == old(index)@[w]);
                assert(index@[e as int].path == old(index)@[e as int].path);
                assert(index@[e as int].pages@ == old(index)@[e as int].pages@.push(page));
                let last = after[e as int].1.len() - 1;
                assert(after[e as int].1[last] == page);
                assert forall|p: Seq<char>, i: Page| listed(before, p, i) implies listed(after, p, i) by {
                    let (w, x) = choose|w: int, x: int|
                        0 <= w < before.len() && 0 <= x < before[w].1.len() && before[w].0 == p
                            && #[trigger] before[w].1[x] == i;
                    assert(after[w].0 == before[w].0);
                    assert(after[w].1.len() >= before[w].1.len());
                    assert(after[w].1[x] == i);
                }
                assert forall|p: Seq<char>, i: Page| listed(after, p, i) implies listed(before, p, i) || (
                p == path@ && i == page) by {
                    let (w, x) = choose|w: int, x: int|
                        0 <= w < after.len() && 0 <= x < after[w].1.len() && after[w].0 == p
                            && #[trigger] after[w].1[x] == i;
                    if w == e && x == last {
                    } else {
                        assert(before[w].1[x] == i);
                    }
                }
            }
            return ;
        }
        e += 1;
    }
    let mut pages: Vec<Page> = Vec::new();
    pages.push(page);
    index.push(PathPages { path: target, pages });
    proof {
        let after = index_view(index@);
        let last = after.len() - 1;
        assert(after[last].1[0] == page);
        assert forall|p: Seq<char>, i: Page| listed(before, p, i) implies listed(after, p, i) by {
            let (w, x) = choose|w: int, x: int|
                0 <= w < before.len() && 0 <= x < before[w].1.len() && before[w].0 == p
                    && #[trigger] before[w].1[x] == i;
            assert(after[w].1[x] == i);
        }
        assert forall|p: Seq<char>, i: Page| listed(after, p, i) implies listed(before, p, i) || (p
            == path@ && i == page) by {
            let (w, x) = choose|w: int, x: int|
                0 <= w < after.len() && 0 <= x < after[w].1.len() && after[w].0 == p
                    && #[trigger] after[w].1[x] == i;
            if w < last {
                assert(before[w].1[x] == i);
            }
        }
    }
}

/// Whether `pages` holds `page`.
pub open spec fn has_page(pages: Seq<Page>, page: Page) -> bool {
    exists|x: int| 0 <= x < pages.len() && pages[x] == page
}

/// Takes `page` out of the pages that the reverse index `index` lists
/// under `path`: nothing else changes.
fn forget_page(index: &mut Vec<PathPages>, path: &String, page: Page)
    ensures
        forall|p: Seq<char>, i: Page|
            listed(index_view(final(index)@), p, i) <==> listed(index_view(old(index)@), p, i) && !(p
                == path@ && i == page),
{
    let ghost before = index_view(index@);
    let mut e: usize = 0;
    while e < index.len()
        invariant
            0 <= e <= index@.len(),
            index@.len() == old(index)@.len(),
            before == index_view(old(index)@),
            forall|w: int|
                0 <= w < index@.len() ==> (#[trigger] index_view(index@)[w]).0 == before[w].0,
            forall|w: int| e <= w < index@.len() ==> (#[trigger] index_view(index@)[w]).1 == before[w].1,
            forall|w: int|
                0 <= w < e && before[w].0 == path@ ==> !has_page(
                    (#[trigger] index_view(index@)[w]).1,
                    page,
                ),
            forall|w: int, i: Page|
                0 <= w < e && !(before[w].0 == path@ && i == page) ==> (#[trigger] has_page(
                    index_view(index@)[w].1,
                    i,
                ) <==> has_page(before[w].1, i)),
        decreases index@.len() - e,
    {
        let ghost whole = index@;
        if same_text(&index[e].path, path) {
            let ghost entry_before = index@[e as int].pages@;
            assert(index_view(index@)[e as int].1 == entry_before);
            assert(entry_before == before[e as int].1);
            let mut x: usize = 0;
            while x < index[e].pages.len()
                invariant
                    e < index@.len(),
                    index@.len() == whole.len(),
                    forall|w: int| 0 <= w < index@.len() && w != e ==> index@[w] == whole[w],
                    index@[e as int].path == whole[e as int].path,
                    0 <= x <= index@[e as int].pages@.len(),
                    forall|y: int| 0 <= y < x ==> index@[e as int].pages@[y] != page,
                    forall|i: Page|
                        i != page ==> (#[trigger] has_page(index@[e as int].pages@, i) <==> has_page(
                            entry_before,
                            i,
                        )),
                decreases index@[e as int].pages@.len() - x,
            {
                if index[e].pages[x] == page {
                    let ghost pages_before = index@[e as int].pages@;
                    let removed = index[e].pages.remove(x);
                    proof {
                        let pages_after = index@[e as int].pages@;
                        assert(pages_after == pages_before.remove(x as int));
                        assert forall|i: Page| i != page implies (#[trigger] has_page(pages_after, i)
                            <==> has_page(pages_before, i)) by {
                            if has_page(pages_after, i) {
                                let y = choose|y: int| 0 <= y < pages_after.len() && pages_after[y] == i;
                                let z = if y < x { y } else { y + 1 };
                                assert(pages_before[z] == i);
                            }
                            if has_page(pages_before, i) {
                                let y = choose|y: int|
                                    0 <= y < pages_before.len() && pages_before[y] == i;
                                let z = if y < x { y } else { y - 1 };
                                assert(pages_after[z] == i);
                            }
                        }
                    }
                } else {
                    x += 1;
                }
            }
        }
        proof {
            let now = index_view(index@);
            let was = index_view(whole);
            assert forall|w: int| 0 <= w < index@.len() implies (#[trigger] now[w]).0 == before[w].0 by {
                assert(was[w].0 == before[w].0);
            }
            assert forall|w: int| e + 1 <= w < index@.len() implies (#[trigger] now[w]).1
                == before[w].1 by {
                assert(was[w].1 == before[w].1);
            }
            assert forall|w: int| 0 <= w < e + 1 && before[w].0 == path@ implies !has_page(
                (#[trigger] now[w]).1,
                page,
            ) by {
                if w == e {
                    assert(now[w].1 == index@[e as int].pages@);
                    assert(was[w].0 == before[w].0);
                } else {
                    assert(now[w] == was[w]);
                }
            }
            assert forall|w: int, i: Page|
                0 <= w < e + 1 && !(before[w].0 == path@ && i == page) implies (#[trigger] has_page(
                now[w].1,
                i,
            ) <==> has_page(before[w].1, i)) by {
                if w == e {
                    assert(now[w].1 == index@[e as int].pages@);
                    assert(was[w].1 == before[w].1);
                    assert(was[w].0 == before[w].0);
                } else {
                    assert(now[w] == was[w]);
                    assert(has_page(was[w].1, i) <==> has_page(before[w].1, i));
                }
            }
        }
        e += 1;
    }
    proof {
        let after = index_view(index@);
        assert forall|p: Seq<char>, i: Page|
            listed(after, p, i) <==> listed(before, p, i) && !(p == path@ && i == page) by {
            if listed(after, p, i) {
                let (w, x) = choose|w: int, x: int|
                    0 <= w < after.len() && 0 <= x < after[w].1.len() && after[w].0 == p
                        && #[trigger] after[w].1[x] == i;
                assert(has_page(after[w].1, i));
                assert(after[w].0 == before[w].0);
                if p == path@ && i == page {
                    assert(!has_page(after[w].1, page));
                }
                assert(has_page(before[w].1, i));
                let y = choose|y: int| 0 <= y < before[w].1.len() && before[w].1[y] == i;
                assert(before[w].1[y] == i);
            }
            if listed(before, p, i) && !(p == path@ && i == page) {
                let (w, x) = choose|w: int, x: int|
                    0 <= w < before.len() && 0 <= x < before[w].1.len() && before[w].0 == p
                        && #[trigger] before[w].1[x] == i;
                assert(has_page(before[w].1, i));
                assert(after[w].0 == before[w].0);
                assert(has_page(after[w].1, i));
                let y = choose|y: int| 0 <= y < after[w].1.len() && after[w].1[y] == i;
                assert(after[w].1[y] == i);
            }
        }
    }
}

/// Taking entry `e` out of a reverse index keeps listed what other entries
/// list; what only entry `e` listed was listed under its path, among its
/// pages.
proof fn lemma_listed_after_removal(index: Seq<PathPages>, e: int)
    requires
        0 <= e < index.len(),
    ensures
        index_view(index.remove(e)) == index_view(index).remove(e),
        forall|p: Seq<char>, i: Page|
            listed(index_view(index), p, i) ==> listed(index_view(index.remove(e)), p, i) || (p
                == index[e].path@ && exists|y: int|
                0 <= y < index[e].pages@.len() && #[trigger] index[e].pages@[y] == i),
        forall|j: int|
            0 <= j < e ==> (#[trigger] index_view(index.remove(e))[j]) == index_view(index)[j],
        forall|p: Seq<char>, i: Page|
            listed(index_view(index.remove(e)), p, i) ==> listed(index_view(index), p, i),
{
    let before = index_view(index);
    let after = index_view(index.remove(e));
    assert(after =~= before.remove(e));
    assert forall|p: Seq<char>, i: Page| listed(after, p, i) implies listed(before, p, i) by {
        let (w, x) = choose|w: int, x: int|
            0 <= w < after.len() && 0 <= x < after[w].1.len() && after[w].0 == p
                && #[trigger] after[w].1[x] == i;
        let v = if w < e { w } else { w + 1 };
        assert(before[v].1[x] == i);
    }
    assert forall|p: Seq<char>, i: Page| listed(before, p, i) implies listed(after, p, i) || (p
        == index[e].path@ && exists|y: int|
        0 <= y < index[e].pages@.len() && #[trigger] index[e].pages@[y] == i) by {
        let (w, x) = choose|w: int, x: int|
            0 <= w < before.len() && 0 <= x < before[w].1.len() && before[w].0 == p
                && #[trigger] before[w].1[x] == i;
        if w < e {
            assert(after[w].1[x] == i);
        } else if w > e {
            assert(after[w - 1].1[x] == i);
        } else {
            assert(index[e].pages@[x] == i);
        }
    }
}

} // verus!
