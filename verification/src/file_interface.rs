//! Access to the files of a database through the buffer pool: pages are
//! served from the pool where it holds them, and every change to a file
//! drops or moves the frames that were cached for it.

use crate::buffer_pool::BufferPool;
use crate::direct_io::{page_of, Disk};
use crate::extendible_hash_table::MAX_DIRECTORY_SIZE;
use crate::system_info::valid_page_size;
use crate::types::{Page, Size, StoreError};
use vstd::prelude::*;

verus! {

/// The files of a database together with the pool that caches their pages.
pub struct Storage {
    disk: Disk,
    pool: BufferPool,
    use_pool: bool,
    page_size: usize,
}

impl Storage {
    /// The bytes of each file, by path.
    pub closed spec fn files(&self) -> Map<Seq<char>, Seq<u8>> {
        self.disk@
    }

    pub closed spec fn spec_page_size(&self) -> usize {
        self.page_size
    }

    pub closed spec fn spec_use_pool(&self) -> bool {
        self.use_pool
    }

    pub closed spec fn pool_capacity(&self) -> Size {
        self.pool.spec_capacity()
    }

    /// The frames of the pool.
    pub closed spec fn frames(&self) -> Map<(Seq<char>, Page), Seq<u8>> {
        self.pool@
    }

    /// Every frame of the pool holds the page of the file that it is
    /// cached for.
    pub closed spec fn coherent(&self) -> bool {
        forall|key: (Seq<char>, Page)| #[trigger]
            self.pool@.contains_key(key) ==> self.disk@.contains_key(key.0) && self.pool@[key]
                == page_of(self.disk@[key.0], key.1 as int, self.page_size as int)
    }

    pub closed spec fn wf(&self) -> bool {
        &&& self.disk.wf()
        &&& self.pool.wf()
        &&& valid_page_size(self.page_size)
        &&& self.coherent()
    }

    /// A storage consistent with itself has a usable page size.
    pub proof fn lemma_page_size(&self)
        requires
            self.wf(),
        ensures
            valid_page_size(self.spec_page_size()),
    {
    }

    /// The length of a file fits the machine's integers.
    pub proof fn lemma_file_fits(&self, path: Seq<char>)
        requires
            self.wf(),
            self.files().contains_key(path),
        ensures
            self.files()[path].len() <= usize::MAX,
    {
        self.disk.lemma_file_fits(path);
    }

    /// An empty storage with pages of `page_size` bytes and an empty pool.
    pub fn new(page_size: usize, pool_initial_size: Size, pool_capacity: Size, use_pool: bool) -> (storage:
        Self)
        requires
            valid_page_size(page_size),
            1 <= pool_initial_size <= MAX_DIRECTORY_SIZE,
        ensures
            storage.wf(),
            storage.files() == Map::<Seq<char>, Seq<u8>>::empty(),
            storage.spec_page_size() == page_size,
            storage.spec_use_pool() == use_pool,
            storage.pool_capacity() == pool_capacity,
    {
        Storage {
            disk: Disk::new(),
            pool: BufferPool::new(pool_initial_size, pool_capacity),
            use_pool,
            page_size,
        }
    }

    /// A storage over the files of `disk`, with an empty pool.
    pub fn from_disk(
        disk: Disk,
        page_size: usize,
        pool_initial_size: Size,
        pool_capacity: Size,
        use_pool: bool,
    ) -> (storage: Self)
        requires
            disk.wf(),
            valid_page_size(page_size),
            1 <= pool_initial_size <= MAX_DIRECTORY_SIZE,
        ensures
            storage.wf(),
            storage.files() == disk@,
            storage.spec_page_size() == page_size,
            storage.spec_use_pool() == use_pool,
            storage.pool_capacity() == pool_capacity,
    {
        Storage { disk, pool: BufferPool::new(pool_initial_size, pool_capacity), use_pool, page_size }
    }

    /// Gives up the storage for its files.
    pub fn into_disk(self) -> (disk: Disk)
        requires
            self.wf(),
        ensures
            disk.wf(),
            disk@ == self.files(),
    {
        self.disk
    }

    /// The files of the storage.
    pub fn disk(&self) -> (disk: &Disk)
        requires
            self.wf(),
        ensures
            disk.wf(),
            disk@ == self.files(),
    {
        &self.disk
    }

    pub fn page_size(&self) -> (page_size: usize)
        ensures
            page_size == self.spec_page_size(),
    {
        self.page_size
    }

    /// Number of frames in the pool.
    pub fn pool_len(&self) -> (len: Size)
        requires
            self.wf(),
        ensures
            len == self.frames().dom().len(),
            len <= self.pool_capacity(),
    {
        self.pool.len()
    }

    /// Says whether pages are served from the pool.
    pub fn set_use_pool(&mut self, use_pool: bool)
        requires
            old(self).wf(),
        ensures
            final(self).wf(),
            final(self).files() == old(self).files(),
            final(self).spec_page_size() == old(self).spec_page_size(),
            final(self).pool_capacity() == old(self).pool_capacity(),
            final(self).spec_use_pool() == use_pool,
    {
        self.use_pool = use_pool;
    }

    /// Sets the capacity of the pool, which evicts frames where it holds
    /// more.
    pub fn set_pool_capacity(&mut self, capacity: Size)
        requires
            old(self).wf(),
        ensures
            final(self).wf(),
            final(self).files() == old(self).files(),
            final(self).spec_page_size() == old(self).spec_page_size(),
            final(self).spec_use_pool() == old(self).spec_use_pool(),
            final(self).pool_capacity() == capacity,
    {
        self.pool.set_capacity(capacity);
        proof {
            assert forall|key: (Seq<char>, Page)| #[trigger]
                self.pool@.contains_key(key) implies self.disk@.contains_key(key.0) && self.pool@[key]
                == page_of(self.disk@[key.0], key.1 as int, self.page_size as int) by {
                assert(old(self).pool@.contains_key(key));
            }
        }
    }

    /// Replaces the pool by an empty one of `initial_size` buckets.
    pub fn reset_pool(&mut self, initial_size: Size, capacity: Size)
        requires
            old(self).wf(),
            1 <= initial_size <= MAX_DIRECTORY_SIZE,
        ensures
            final(self).wf(),
            final(self).files() == old(self).files(),
            final(self).spec_page_size() == old(self).spec_page_size(),
            final(self).spec_use_pool() == old(self).spec_use_pool(),
            final(self).pool_capacity() == capacity,
    {
        self.pool = BufferPool::new(initial_size, capacity);
    }

    /// Whether there is a file at `path`.
    pub fn path_exists(&self, path: &str) -> (exists: bool)
        requires
            self.wf(),
        ensures
            exists == self.files().contains_key(path@),
    {
        self.disk.path_exists(path)
    }

    /// Length in bytes of the file at `path`.
    pub fn file_len(&self, path: &str) -> (len: Option<usize>)
        requires
            self.wf(),
        ensures
            match len {
                Some(n) => self.files().contains_key(path@) && n == self.files()[path@].len(),
                None => !self.files().contains_key(path@),
            },
    {
        self.disk.file_len(path)
    }

    /// The bytes of the file at `path`, read past the pool.
    pub fn read_file(&self, path: &str) -> (bytes: Result<Vec<u8>, StoreError>)
        requires
            self.wf(),
        ensures
            match bytes {
                Ok(b) => self.files().contains_key(path@) && b@ == self.files()[path@],
                Err(e) => !self.files().contains_key(path@) && e == StoreError::MissingFile,
            },
    {
        self.disk.read_file(path)
    }

    /// Page `page_index` of the file at `path`: from the pool where it
    /// holds the page, else from the file, after which the pool holds it.
    /// Fails exactly where there is no such file.
    pub fn get_page(&mut self, path: &str, page_index: Page) -> (page: Result<Vec<u8>, StoreError>)
        requires
            old(self).wf(),
        ensures
            final(self).wf(),
            final(self).files() == old(self).files(),
            final(self).spec_page_size() == old(self).spec_page_size(),
            final(self).spec_use_pool() == old(self).spec_use_pool(),
            final(self).pool_capacity() == old(self).pool_capacity(),
            match page {
                Ok(bytes) => old(self).files().contains_key(path@) && bytes@ == page_of(
                    old(self).files()[path@],
                    page_index as int,
                    old(self).spec_page_size() as int,
                ),
                Err(e) => !old(self).files().contains_key(path@) && e == StoreError::MissingFile,
            },
    {
        if self.use_pool {
            match self.pool.get(path, page_index) {
                Some(bytes) => {
                    assert(old(self).pool@.contains_key((path@, page_index)));
                    Ok(bytes)
                },
                None => {
                    match self.disk.read_page(path, page_index, self.page_size) {
                        Ok(bytes) => {
                            let ghost before = self.pool@;
                            self.pool.insert(path, page_index, bytes.as_slice());
                            proof {
                                let id = (path@, page_index);
                                assert forall|key: (Seq<char>, Page)| #[trigger]
                                    self.pool@.contains_key(key) implies self.disk@.contains_key(key.0)
                                    && self.pool@[key] == page_of(
                                    self.disk@[key.0],
                                    key.1 as int,
                                    self.page_size as int,
                                ) by {
                                    if key != id {
                                        assert(self.pool@.remove(id).contains_key(key));
                                        assert(before.contains_key(key));
                                    }
                                }
                            }
                            Ok(bytes)
                        },
                        Err(e) => Err(e),
                    }
                },
            }
        } else {
            self.disk.read_page(path, page_index, self.page_size)
        }
    }

    /// Makes `bytes` the content of the file at `path`, which is created
    /// where it is missing.
    pub fn write_file(&mut self, path: &str, bytes: Vec<u8>)
        requires
            old(self).wf(),
        ensures
            final(self).wf(),
            final(self).files() == old(self).files().insert(path@, bytes@),
            final(self).spec_page_size() == old(self).spec_page_size(),
            final(self).spec_use_pool() == old(self).spec_use_pool(),
            final(self).pool_capacity() == old(self).pool_capacity(),
    {
        self.pool.remove(path);
        self.disk.write_file(path, bytes);
        proof {
            assert forall|key: (Seq<char>, Page)| #[trigger]
                self.pool@.contains_key(key) implies self.disk@.contains_key(key.0) && self.pool@[key]
                == page_of(self.disk@[key.0], key.1 as int, self.page_size as int) by {
                assert(old(self).pool@.contains_key(key));
            }
        }
    }

    /// Adds `bytes` to the end of the file at `path`, which is created where
    /// it is missing.
    pub fn append_file(&mut self, path: &str, bytes: &[u8])
        requires
            old(self).wf(),
        ensures
            final(self).wf(),
            final(self).files() == old(self).files().insert(
                path@,
                (if old(self).files().contains_key(path@) {
                    old(self).files()[path@]
                } else {
                    Seq::<u8>::empty()
                }) + bytes@,
            ),
            final(self).spec_page_size() == old(self).spec_page_size(),
            final(self).spec_use_pool() == old(self).spec_use_pool(),
            final(self).pool_capacity() == old(self).pool_capacity(),
    {
        self.pool.remove(path);
        self.disk.append_file(path, bytes);
        proof {
            assert forall|key: (Seq<char>, Page)| #[trigger]
                self.pool@.contains_key(key) implies self.disk@.contains_key(key.0) && self.pool@[key]
                == page_of(self.disk@[key.0], key.1 as int, self.page_size as int) by {
                assert(old(self).pool@.contains_key(key));
            }
        }
    }

    /// Deletes the file at `path` and drops its frames; fails where there is
    /// no such file.
    pub fn remove_file(&mut self, path: &str) -> (done: Result<(), StoreError>)
        requires
            old(self).wf(),
        ensures
            final(self).wf(),
            final(self).files() == old(self).files().remove(path@),
            final(self).spec_page_size() == old(self).spec_page_size(),
            final(self).spec_use_pool() == old(self).spec_use_pool(),
            final(self).pool_capacity() == old(self).pool_capacity(),
            done.is_ok() == old(self).files().contains_key(path@),
            done.is_err() ==> done == Err::<(), StoreError>(StoreError::MissingFile),
            final(self).frames().submap_of(old(self).frames()),
            forall|key: (Seq<char>, Page)|
                final(self).frames().contains_key(key) <==> old(self).frames().contains_key(key)
                    && key.0 != path@,
    {
        self.pool.remove(path);
        let done = self.disk.remove_file(path);
        proof {
            assert forall|key: (Seq<char>, Page)| #[trigger]
                self.pool@.contains_key(key) implies self.disk@.contains_key(key.0) && self.pool@[key]
                == page_of(self.disk@[key.0], key.1 as int, self.page_size as int) by {
                assert(old(self).pool@.contains_key(key));
            }
        }
        done
    }

    /// Moves the file at `old_path` to `new_path`, in place of a file that
    /// was there, and hands its frames over: no frame of the old path
    /// stays, and each is found under the new path, in place of the frames
    /// that were there. Fails, and changes nothing, where there is no file
    /// at `old_path`.
    pub fn rename_file(&mut self, old_path: &str, new_path: &str) -> (done: Result<(), StoreError>)
        requires
            old(self).wf(),
        ensures
            final(self).wf(),
            final(self).spec_page_size() == old(self).spec_page_size(),
            final(self).spec_use_pool() == old(self).spec_use_pool(),
            final(self).pool_capacity() == old(self).pool_capacity(),
            done.is_ok() == old(self).files().contains_key(old_path@),
            done.is_err() ==> done == Err::<(), StoreError>(StoreError::MissingFile) && final(self).files() == old(self).files(),
            done.is_ok() ==> final(self).files() == old(self).files().remove(old_path@).insert(
                new_path@,
                old(self).files()[old_path@],
            ),
            done.is_err() || old_path@ == new_path@ ==> final(self).frames() == old(self).frames(),
            done.is_ok() && old_path@ != new_path@ ==> {
                &&& forall|page: Page| !final(self).frames().contains_key((old_path@, page))
                &&& forall|page: Page|
                    final(self).frames().contains_key((new_path@, page)) <==> old(self).frames().contains_key((old_path@, page))
                &&& forall|page: Page| #[trigger]
                    final(self).frames().contains_key((new_path@, page)) ==> final(self).frames()[(
                        new_path@,
                        page,
                    )] == old(self).frames()[(old_path@, page)]
                &&& forall|key: (Seq<char>, Page)|
                    key.0 != old_path@ && key.0 != new_path@ ==> (final(self).frames().contains_key(
                        key,
                    ) <==> old(self).frames().contains_key(key))
                &&& forall|key: (Seq<char>, Page)|
                    key.0 != old_path@ && key.0 != new_path@ && #[trigger] final(self).frames().contains_key(key) ==> final(self).frames()[key] == old(self).frames()[key]
            },
    {
        if !self.disk.path_exists(old_path) {
            return Err(StoreError::MissingFile);
        }
        self.pool.rename(old_path, new_path);
        let done = self.disk.rename_file(old_path, new_path);
        proof {
            assert forall|key: (Seq<char>, Page)| #[trigger]
                self.pool@.contains_key(key) implies self.disk@.contains_key(key.0) && self.pool@[key]
                == page_of(self.disk@[key.0], key.1 as int, self.page_size as int) by {
                if old_path@ == new_path@ {
                    assert(old(self).pool@.contains_key(key));
                    assert(self.disk@ =~= old(self).disk@);
                } else if key.0 == new_path@ {
                    assert(old(self).pool@.contains_key((old_path@, key.1)));
                } else {
                    assert(old(self).pool@.contains_key(key));
                }
            }
        }
        done
    }
}

} // verus!
