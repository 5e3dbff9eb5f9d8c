//! The files of a database, held in memory as named byte strings and read
//! page by page.

use crate::types::{Page, StoreError};
use vstd::prelude::*;
use vstd::slice::slice_subrange;
use vstd::string::StringExecFns;

verus! {

/// The smaller of two numbers.
pub open spec fn at_most(a: int, b: int) -> int {
    if a <= b {
        a
    } else {
        b
    }
}

/// Page `page_index` of a file: the window of `page_size` bytes at that
/// index, cut short by the end of the file and empty beyond it.
pub open spec fn page_of(bytes: Seq<u8>, page_index: int, page_size: int) -> Seq<u8> {
    bytes.subrange(
        at_most(page_index * page_size, bytes.len() as int),
        at_most((page_index + 1) * page_size, bytes.len() as int),
    )
}

/// One file: its path and its bytes.
pub struct StoredFile {
    pub path: String,
    pub bytes: Vec<u8>,
}

/// A set of files, each under a path of its own.
pub struct Disk {
    files: Vec<StoredFile>,
    contents: Ghost<Map<Seq<char>, Seq<u8>>>,
}

impl View for Disk {
    type V = Map<Seq<char>, Seq<u8>>;

    /// The bytes of each file, by path.
    closed spec fn view(&self) -> Map<Seq<char>, Seq<u8>> {
        self.contents@
    }
}

fn same_text(a: &String, b: &String) -> (same: bool)
    ensures
        same == (a@ == b@),
{
    *a == *b
}

impl Disk {
    /// The list of files agrees with the view, and no path occurs twice.
    pub closed spec fn wf(&self) -> bool {
        &&& forall|i: int|
            0 <= i < self.files@.len() ==> self.contents@.contains_key(
                (#[trigger] self.files@[i]).path@,
            ) && self.contents@[self.files@[i].path@] == self.files@[i].bytes@
        &&& forall|path: Seq<char>| #[trigger]
            self.contents@.contains_key(path) ==> exists|i: int|
                0 <= i < self.files@.len() && (#[trigger] self.files@[i]).path@ == path
        &&& forall|i: int, j: int|
            0 <= i < j < self.files@.len() ==> (#[trigger] self.files@[i]).path@ != (
            #[trigger] self.files@[j]).path@
    }

    /// The length of a file fits the machine's integers.
    pub proof fn lemma_file_fits(&self, path: Seq<char>)
        requires
            self.wf(),
            self@.contains_key(path),
        ensures
            self@[path].len() <= usize::MAX,
    {
        let i = choose|i: int| 0 <= i < self.files@.len() && (#[trigger] self.files@[i]).path@ == path;
        assert(self.files@[i].bytes@.len() == self.files@[i].bytes.len());
    }

    /// A disk without files.
    pub fn new() -> (disk: Self)
        ensures
            disk.wf(),
            disk@ == Map::<Seq<char>, Seq<u8>>::empty(),
    {
        Disk { files: Vec::new(), contents: Ghost(Map::empty()) }
    }

    /// Position of the file at `path` in the list of files.
    fn locate(&self, path: &String) -> (found: Option<usize>)
        requires
            self.wf(),
        ensures
            match found {
                Some(i) => i < self.files@.len() && self.files@[i as int].path@ == path@
                    && self@.contains_key(path@),
                None => !self@.contains_key(path@),
            },
    {
        let mut i: usize = 0;
        while i < self.files.len()
            invariant
                self.wf(),
                0 <= i <= self.files@.len(),
                forall|j: int| 0 <= j < i ==> (#[trigger] self.files@[j]).path@ != path@,
            decreases self.files@.len() - i,
        {
            if same_text(&self.files[i].path, path) {
                return Some(i);
            }
            i += 1;
        }
        None
    }

    /// Whether there is a file at `path`.
    pub fn path_exists(&self, path: &str) -> (exists: bool)
        requires
            self.wf(),
        ensures
            exists == self@.contains_key(path@),
    {
        let target = String::from_str(path);
        self.locate(&target).is_some()
    }

    /// Length in bytes of the file at `path`.
    pub fn file_len(&self, path: &str) -> (len: Option<usize>)
        requires
            self.wf(),
        ensures
            match len {
                Some(n) => self@.contains_key(path@) && n == self@[path@].len(),
                None => !self@.contains_key(path@),
            },
    {
        let target = String::from_str(path);
        match self.locate(&target) {
            Some(i) => Some(self.files[i].bytes.len()),
            None => None,
        }
    }

    /// The bytes of the file at `path`.
    pub fn read_file(&self, path: &str) -> (bytes: Result<Vec<u8>, StoreError>)
        requires
            self.wf(),
        ensures
            match bytes {
                Ok(b) => self@.contains_key(path@) && b@ == self@[path@],
                Err(e) => !self@.contains_key(path@) && e == StoreError::MissingFile,
            },
    {
        let target = String::from_str(path);
        match self.locate(&target) {
            Some(i) => Ok(self.files[i].bytes.clone()),
            None => Err(StoreError::MissingFile),
        }
    }

    /// Page `page_index` of the file at `path`, for pages of `page_size`
    /// bytes: the whole page, a shorter one at the end of the file, or
    /// nothing beyond it.
    pub fn read_page(&self, path: &str, page_index: Page, page_size: usize) -> (page: Result<
        Vec<u8>,
        StoreError,
    >)
        requires
            self.wf(),
        ensures
            match page {
                Ok(bytes) => self@.contains_key(path@) && bytes@ == page_of(
                    self@[path@],
                    page_index as int,
                    page_size as int,
                ),
                Err(e) => !self@.contains_key(path@) && e == StoreError::MissingFile,
            },
    {
        let target = String::from_str(path);
        match self.locate(&target) {
            Some(i) => {
                let bytes = &self.files[i].bytes;
                let len: usize = bytes.len();
                let start: usize = match page_index.checked_mul(page_size) {
                    Some(offset) => if offset < len {
                        offset
                    } else {
                        len
                    },
                    None => len,
                };
                let end: usize = if len - start > page_size {
                    start + page_size
                } else {
                    len
                };
                proof {
                    assert(start == at_most(page_index * page_size, len as int));
                    assert(end == at_most((page_index + 1) * page_size, len as int)) by (nonlinear_arith)
                        requires
                            start == at_most(page_index * page_size, len as int),
                            end == (if len - start > page_size {
                                start + page_size
                            } else {
                                len as int
                            }),
                            0 <= start <= len,
                    ;
                }
                let window = slice_subrange(bytes.as_slice(), start, end);
                Ok(vstd::slice::slice_to_vec(window))
            },
            None => Err(StoreError::MissingFile),
        }
    }

    /// Makes `bytes` the content of the file at `path`, which is created
    /// where it is missing.
    pub fn write_file(&mut self, path: &str, bytes: Vec<u8>)
        requires
            old(self).wf(),
        ensures
            final(self).wf(),
            final(self)@ == old(self)@.insert(path@, bytes@),
    {
        let target = String::from_str(path);
        let ghost content = bytes@;
        match self.locate(&target) {
            Some(i) => {
                self.files[i].bytes = bytes;
            },
            None => {
                self.files.push(StoredFile { path: target, bytes });
            },
        }
        proof {
            self.contents = Ghost(self.contents@.insert(path@, content));
            assert forall|p: Seq<char>| #[trigger] self.contents@.contains_key(p) implies exists|
                i: int,
            | 0 <= i < self.files@.len() && (#[trigger] self.files@[i]).path@ == p by {
                if p != path@ {
                    let i = choose|i: int|
                        0 <= i < old(self).files@.len() && (#[trigger] old(self).files@[i]).path@ == p;
                    assert(self.files@[i].path@ == p);
                } else {
                    if old(self)@.contains_key(path@) {
                        let i = choose|i: int|
                            0 <= i < old(self).files@.len() && (#[trigger] old(self).files@[i]).path@
                                == p;
                        assert(self.files@[i].path@ == p);
                    } else {
                        assert(self.files@[self.files@.len() - 1].path@ == p);
                    }
                }
            }
        }
    }

    /// Adds `bytes` to the end of the file at `path`, which is created where
    /// it is missing.
    pub fn append_file(&mut self, path: &str, bytes: &[u8])
        requires
            old(self).wf(),
        ensures
            final(self).wf(),
            final(self)@ == old(self)@.insert(
                path@,
                (if old(self)@.contains_key(path@) {
                    old(self)@[path@]
                } else {
                    Seq::<u8>::empty()
                }) + bytes@,
            ),
    {
        let mut content: Vec<u8> = match self.read_file(path) {
            Ok(existing) => existing,
            Err(_) => Vec::new(),
        };
        let mut added = vstd::slice::slice_to_vec(bytes);
        content.append(&mut added);
        self.write_file(path, content);
    }

    /// Deletes the file at `path`; fails where there is none.
    pub fn remove_file(&mut self, path: &str) -> (done: Result<(), StoreError>)
        requires
            old(self).wf(),
        ensures
            final(self).wf(),
            final(self)@ == old(self)@.remove(path@),
            done.is_ok() == old(self)@.contains_key(path@),
            done.is_err() ==> done == Err::<(), StoreError>(StoreError::MissingFile),
    {
        let target = String::from_str(path);
        match self.locate(&target) {
            Some(i) => {
                let removed = self.files.remove(i);
                proof {
                    self.contents = Ghost(self.contents@.remove(path@));
                    let was = old(self).files@;
                    assert forall|j: int| 0 <= j < self.files@.len() implies self.contents@.contains_key(
                        (#[trigger] self.files@[j]).path@,
                    ) && self.contents@[self.files@[j].path@] == self.files@[j].bytes@ by {
                        let k = if j < i { j } else { j + 1 };
                        assert(self.files@[j] == was[k]);
                    }
                    assert forall|p: Seq<char>| #[trigger] self.contents@.contains_key(p) implies exists|
                        j: int,
                    | 0 <= j < self.files@.len() && (#[trigger] self.files@[j]).path@ == p by {
                        let k = choose|k: int| 0 <= k < was.len() && (#[trigger] was[k]).path@ == p;
                        if k < i {
                            assert(self.files@[k].path@ == p);
                        } else {
                            assert(self.files@[k - 1].path@ == p);
                        }
                    }
                    assert forall|a: int, b: int| 0 <= a < b < self.files@.len() implies (
                    #[trigger] self.files@[a]).path@ != (#[trigger] self.files@[b]).path@ by {
                        let ka = if a < i { a } else { a + 1 };
                        let kb = if b < i { b } else { b + 1 };
                        assert(self.files@[a] == was[ka]);
                        assert(self.files@[b] == was[kb]);
                    }
                }
                Ok(())
            },
            None => {
                proof {
                    assert(self.contents@.remove(path@) =~= self.contents@);
                }
                Err(StoreError::MissingFile)
            },
        }
    }

    /// Moves the file at `old_path` to `new_path`, in place of a file that
    /// was there; fails where there is no file at `old_path`.
    pub fn rename_file(&mut self, old_path: &str, new_path: &str) -> (done: Result<(), StoreError>)
        requires
            old(self).wf(),
        ensures
            final(self).wf(),
            done.is_ok() == old(self)@.contains_key(old_path@),
            done.is_err() ==> done == Err::<(), StoreError>(StoreError::MissingFile) && final(self)@
                == old(self)@,
            done.is_ok() ==> final(self)@ == old(self)@.remove(old_path@).insert(
                new_path@,
                old(self)@[old_path@],
            ),
    {
        match self.read_file(old_path) {
            Ok(bytes) => {
                let removed = self.remove_file(old_path);
                self.write_file(new_path, bytes);
                Ok(())
            },
            Err(_) => Err(StoreError::MissingFile),
        }
    }

    /// Number of files.
    pub fn file_count(&self) -> (count: usize)
        ensures
            count == self.spec_file_count(),
    {
        self.files.len()
    }

    pub closed spec fn spec_file_count(&self) -> int {
        self.files@.len() as int
    }

    /// The file at position `index` of the list of files.
    pub fn file_at(&self, index: usize) -> (file: &StoredFile)
        requires
            self.wf(),
            index < self.spec_file_count(),
        ensures
            self@.contains_key(file.path@),
            self@[file.path@] == file.bytes@,
    {
        &self.files[index]
    }
}

} // verus!
