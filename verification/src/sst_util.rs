//! What a run is, and how its pages are reached: a run is a file of
//! entries with strictly ascending keys, read one page at a time.

use crate::algorithm::strictly_ascending;
use crate::direct_io::{at_most, page_of};
use crate::file_interface::Storage;
use crate::filename;
use crate::serde_entry::{deserialize, entries_from_bytes, entry_window};
use crate::system_info::{entries_per_page, spec_entries_per_page, valid_page_size};
use crate::types::{Entry, Key, Level, Page, Run, Size, StoreError, Value};
use vstd::prelude::*;

verus! {

/// Some entry carries `key`.
pub open spec fn holds_key(entries: Seq<Entry>, key: Key) -> bool {
    exists|i: int| 0 <= i < entries.len() && (#[trigger] entries[i]).0 == key
}

/// The value that `entries` give `key`: that of an entry which carries it.
pub open spec fn lookup(entries: Seq<Entry>, key: Key) -> Option<Value> {
    if holds_key(entries, key) {
        Some(entries[choose|i: int| 0 <= i < entries.len() && (#[trigger] entries[i]).0 == key].1)
    } else {
        None
    }
}

/// The entries whose keys lie in `[lo, hi]`, in their order.
pub open spec fn in_range(entries: Seq<Entry>, lo: Key, hi: Key) -> Seq<Entry> {
    entries.filter(|entry: Entry| lo <= entry.0 <= hi)
}

/// `index` is where `key` would stand among ascending entries: the entries
/// before it are below `key`, the others are not.
pub open spec fn is_lower_bound(entries: Seq<Entry>, key: Key, index: int) -> bool {
    &&& 0 <= index <= entries.len()
    &&& forall|i: int| 0 <= i < index ==> (#[trigger] entries[i]).0 < key
    &&& forall|i: int| index <= i < entries.len() ==> (#[trigger] entries[i]).0 >= key
}

/// `index` ends the entries that are not above `key`: the entries before
/// it are not above `key`, the others are.
pub open spec fn is_upper_end(entries: Seq<Entry>, key: Key, index: int) -> bool {
    &&& 0 <= index <= entries.len()
    &&& forall|i: int| 0 <= i < index ==> (#[trigger] entries[i]).0 <= key
    &&& forall|i: int| index <= i < entries.len() ==> (#[trigger] entries[i]).0 > key
}

/// The entries in `[lo, hi]` are those from the lower bound of `lo` to the
/// upper end of `hi`.
pub proof fn lemma_in_range_between_bounds(entries: Seq<Entry>, lo: Key, hi: Key, from: int, to: int)
    requires
        is_lower_bound(entries, lo, from),
        is_upper_end(entries, hi, to),
    ensures
        from < to ==> in_range(entries, lo, hi) == entries.subrange(from, to),
        from >= to ==> in_range(entries, lo, hi) == Seq::<Entry>::empty(),
{
    if from < to {
        assert forall|i: int| from <= i < to implies lo <= (#[trigger] entries[i]).0 <= hi by {}
        lemma_in_range_is_window(entries, lo, hi, from, to);
    } else {
        if lo > hi {
            lemma_in_range_empty(entries, lo, hi);
        } else {
            if from > to {
                assert(entries[to].0 > hi);
                assert(entries[to].0 < lo);
            }
            lemma_in_range_is_window(entries, lo, hi, to, to);
            assert(entries.subrange(to, to) =~= Seq::<Entry>::empty());
        }
    }
}

/// The bytes of a run of `num_entries` entries: whole entries only, as
/// many as recorded, with strictly ascending keys.
pub open spec fn run_file(bytes: Seq<u8>, num_entries: int) -> bool {
    &&& bytes.len() == 16 * num_entries
    &&& strictly_ascending(entries_from_bytes(bytes))
}

/// Where no key occurs twice, the entry that carries a key decides its
/// value.
pub proof fn lemma_lookup_at(entries: Seq<Entry>, index: int)
    requires
        strictly_ascending(entries),
        0 <= index < entries.len(),
    ensures
        lookup(entries, entries[index].0) == Some(entries[index].1),
{
    let key = entries[index].0;
    assert(holds_key(entries, key));
    let chosen = choose|i: int| 0 <= i < entries.len() && (#[trigger] entries[i]).0 == key;
    if chosen < index {
        assert(entries[chosen].0 < entries[index].0);
    } else if chosen > index {
        assert(entries[index].0 < entries[chosen].0);
    }
}

/// Among ascending entries, those in `[lo, hi]` stand side by side: from
/// the first entry that is not below `lo` up to the last that is not above
/// `hi`.
pub proof fn lemma_in_range_is_window(entries: Seq<Entry>, lo: Key, hi: Key, from: int, to: int)
    requires
        0 <= from <= to <= entries.len(),
        forall|i: int| 0 <= i < from ==> (#[trigger] entries[i]).0 < lo,
        forall|i: int| from <= i < to ==> lo <= (#[trigger] entries[i]).0 <= hi,
        forall|i: int| to <= i < entries.len() ==> (#[trigger] entries[i]).0 > hi,
    ensures
        in_range(entries, lo, hi) == entries.subrange(from, to),
    decreases entries.len(),
{
    let pred = |entry: Entry| lo <= entry.0 <= hi;
    reveal(Seq::filter);
    if entries.len() == 0 {
        assert(entries.subrange(from, to) =~= Seq::<Entry>::empty());
    } else {
        let front = entries.drop_last();
        let last = entries.last();
        if to == entries.len() {
            if from == to {
                lemma_in_range_is_window(front, lo, hi, from - 1, from - 1);
                assert(front.subrange(from - 1, from - 1) =~= Seq::<Entry>::empty());
                assert(entries.subrange(from, to) =~= Seq::<Entry>::empty());
                assert(!pred(last));
            } else {
                lemma_in_range_is_window(front, lo, hi, from, to - 1);
                assert(pred(last));
                assert(entries.subrange(from, to) =~= front.subrange(from, to - 1).push(last));
            }
        } else {
            lemma_in_range_is_window(front, lo, hi, from, to);
            assert(!pred(last));
            assert(entries.subrange(from, to) =~= front.subrange(from, to));
        }
    }
}

/// No entry lies in an empty interval.
pub proof fn lemma_in_range_empty(entries: Seq<Entry>, lo: Key, hi: Key)
    requires
        lo > hi,
    ensures
        in_range(entries, lo, hi) == Seq::<Entry>::empty(),
    decreases entries.len(),
{
    reveal(Seq::filter);
    if entries.len() > 0 {
        lemma_in_range_empty(entries.drop_last(), lo, hi);
    }
}

/// `a` divided by `b`, rounded up.
pub open spec fn ceil_div(a: int, b: int) -> int {
    (a + b - 1) / b
}

/// What rounding a quotient up gives.
pub proof fn lemma_ceil_div(a: int, b: int)
    requires
        a >= 0,
        b >= 1,
    ensures
        ceil_div(a, b) == (if a % b == 0 {
            a / b
        } else {
            a / b + 1
        }),
        ceil_div(a, b) * b >= a,
        a > 0 ==> (ceil_div(a, b) - 1) * b < a,
        a > 0 ==> ceil_div(a, b) >= 1,
        a == 0 ==> ceil_div(a, b) == 0,
        ceil_div(a, b) <= a,
        b >= 2 && a >= 2 ==> ceil_div(a, b) < a,
{
    vstd::arithmetic::div_mod::lemma_fundamental_div_mod(a, b);
    let q = a / b;
    let r = a % b;
    if r == 0 {
        assert(a + b - 1 == q * b + (b - 1)) by (nonlinear_arith)
            requires
                a == b * q + r,
                r == 0,
        ;
        vstd::arithmetic::div_mod::lemma_fundamental_div_mod_converse(a + b - 1, b, q, b - 1);
    } else {
        assert(a + b - 1 == (q + 1) * b + (r - 1)) by (nonlinear_arith)
            requires
                a == b * q + r,
        ;
        vstd::arithmetic::div_mod::lemma_fundamental_div_mod_converse(a + b - 1, b, q + 1, r - 1);
    }
    let c = ceil_div(a, b);
    assert(c * b >= a && (a > 0 ==> (c - 1) * b < a) && c <= a && (b >= 2 && a >= 2 ==> c < a) && q
        >= 0) by (nonlinear_arith)
        requires
            a == b * q + r,
            0 <= r < b,
            a >= 0,
            b >= 1,
            c == (if r == 0 {
                q
            } else {
                q + 1
            }),
    ;
    if a == 0 {
        assert(q == 0) by (nonlinear_arith)
            requires
                0 == b * q + r,
                0 <= r < b,
                b >= 1,
        ;
    }
}

/// Among ascending entries, the interval of a single key holds the entry
/// of the key and no other.
pub proof fn lemma_point_range(entries: Seq<Entry>, key: Key)
    requires
        strictly_ascending(entries),
    ensures
        in_range(entries, key, key) == match lookup(entries, key) {
            Some(value) => seq![(key, value)],
            None => Seq::<Entry>::empty(),
        },
{
    if holds_key(entries, key) {
        let index = choose|i: int| 0 <= i < entries.len() && (#[trigger] entries[i]).0 == key;
        lemma_lookup_at(entries, index);
        lemma_in_range_is_window(entries, key, key, index, index + 1);
        assert(entries.subrange(index, index + 1) =~= seq![entries[index]]);
    } else {
        // The place where the key would stand.
        let place = choose|p: int| is_lower_bound(entries, key, p);
        lemma_lower_bound_exists(entries, key);
        lemma_in_range_is_window(entries, key, key, place, place);
        assert(entries.subrange(place, place) =~= Seq::<Entry>::empty());
    }
}

/// Among ascending entries every key has a place.
pub proof fn lemma_lower_bound_exists(entries: Seq<Entry>, key: Key)
    requires
        strictly_ascending(entries),
    ensures
        exists|place: int| is_lower_bound(entries, key, place),
    decreases entries.len(),
{
    if entries.len() == 0 {
        assert(is_lower_bound(entries, key, 0));
    } else {
        let front = entries.drop_last();
        assert(strictly_ascending(front)) by {
            assert forall|i: int, j: int| 0 <= i < j < front.len() implies front[i].0 < front[j].0 by {
                assert(front[i] == entries[i]);
                assert(front[j] == entries[j]);
            }
        }
        lemma_lower_bound_exists(front, key);
        let place = choose|place: int| is_lower_bound(front, key, place);
        if entries.last().0 < key {
            assert(is_lower_bound(entries, key, entries.len() as int)) by {
                assert forall|i: int| 0 <= i < entries.len() implies (#[trigger] entries[i]).0 < key by {
                    if i < entries.len() - 1 {
                        assert(entries[i].0 < entries[entries.len() - 1].0);
                    }
                }
            }
        } else {
            assert(is_lower_bound(entries, key, place)) by {
                assert forall|i: int| 0 <= i < place implies (#[trigger] entries[i]).0 < key by {
                    assert(front[i] == entries[i]);
                }
                assert forall|i: int| place <= i < entries.len() implies (#[trigger] entries[i]).0
                    >= key by {
                    if i < front.len() {
                        assert(front[i] == entries[i]);
                    }
                }
            }
        }
    }
}

pub open spec fn spec_num_pages(num_entries: Size, page_size: usize) -> int {
    ceil_div(num_entries as int, spec_entries_per_page(page_size) as int)
}

/// Number of pages that `num_entries` entries take.
pub fn num_pages(num_entries: Size, page_size: usize) -> (pages: Size)
    requires
        valid_page_size(page_size),
    ensures
        pages == spec_num_pages(num_entries, page_size),
        pages * spec_entries_per_page(page_size) >= num_entries,
        num_entries > 0 ==> (pages - 1) * spec_entries_per_page(page_size) < num_entries,
        num_entries == 0 ==> pages == 0,
{
    let per_page: usize = entries_per_page(page_size);
    proof {
        lemma_ceil_div(num_entries as int, per_page as int);
    }
    if num_entries % per_page == 0 {
        num_entries / per_page
    } else {
        num_entries / per_page + 1
    }
}

/// The entry at position `index` of a file lies in page
/// `index / entries_per_page`, at slot `index % entries_per_page`.
pub proof fn lemma_entry_in_page(bytes: Seq<u8>, index: int, page_size: usize)
    requires
        valid_page_size(page_size),
        0 <= index,
        (index + 1) * 16 <= bytes.len(),
    ensures
        ({
            let per_page = spec_entries_per_page(page_size) as int;
            let page = page_of(bytes, index / per_page, page_size as int);
            let slot = index % per_page;
            &&& (slot + 1) * 16 <= page.len()
            &&& entries_from_bytes(page)[slot] == entries_from_bytes(bytes)[index]
        }),
{
    let e = spec_entries_per_page(page_size) as int;
    let ps = page_size as int;
    let p = index / e;
    let s = index % e;
    let len = bytes.len() as int;
    vstd::arithmetic::div_mod::lemma_fundamental_div_mod(index, e);
    assert(ps == 16 * e);
    assert(p * ps + s * 16 == 16 * index && (p + 1) * ps >= 16 * (index + 1)) by (nonlinear_arith)
        requires
            index == e * p + s,
            0 <= s < e,
            ps == 16 * e,
    ;
    assert(p * ps >= 0) by (nonlinear_arith)
        requires
            p >= 0,
            ps >= 0,
    ;
    let page = page_of(bytes, p, ps);
    let start = at_most(p * ps, len);
    assert(start == p * ps);
    assert(entry_window(page, s) =~= entry_window(bytes, index));
}

/// A page of a file of whole entries holds the entries of its window.
pub proof fn lemma_page_entries(bytes: Seq<u8>, page_index: int, page_size: usize)
    requires
        valid_page_size(page_size),
        bytes.len() % 16 == 0,
        0 <= page_index,
    ensures
        ({
            let per_page = spec_entries_per_page(page_size) as int;
            let count = (bytes.len() / 16) as int;
            let page = page_of(bytes, page_index, page_size as int);
            &&& page.len() % 16 == 0
            &&& entries_from_bytes(page) == entries_from_bytes(bytes).subrange(
                at_most(page_index * per_page, count),
                at_most((page_index + 1) * per_page, count),
            )
        }),
{
    let e = spec_entries_per_page(page_size) as int;
    let ps = page_size as int;
    let len = bytes.len() as int;
    let n = len / 16;
    let page = page_of(bytes, page_index, ps);
    let from = at_most(page_index * e, n);
    let to = at_most((page_index + 1) * e, n);
    assert(ps == 16 * e);
    assert(len == 16 * n);
    assert(page_index * ps == 16 * (page_index * e) && (page_index + 1) * ps == 16 * ((page_index
        + 1) * e) && page_index * e >= 0 && (page_index + 1) * e >= page_index * e)
        by (nonlinear_arith)
        requires
            ps == 16 * e,
            page_index >= 0,
            e >= 1,
    ;
    assert(at_most(page_index * ps, len) == 16 * from);
    assert(at_most((page_index + 1) * ps, len) == 16 * to);
    assert(page.len() == 16 * (to - from));
    let whole = entries_from_bytes(bytes);
    let part = entries_from_bytes(page);
    assert(part.len() == to - from);
    assert forall|i: int| 0 <= i < part.len() implies part[i] == whole.subrange(from, to)[i] by {
        assert(entry_window(page, i) =~= entry_window(bytes, from + i));
    }
    assert(part =~= whole.subrange(from, to));
}

/// Page `page_index` of the entries of a run.
pub fn get_sst_page(storage: &mut Storage, db_name: &str, level: Level, run: Run, page_index: Page) -> (page:
    Result<Vec<u8>, StoreError>)
    requires
        old(storage).wf(),
    ensures
        final(storage).wf(),
        final(storage).files() == old(storage).files(),
        final(storage).spec_page_size() == old(storage).spec_page_size(),
        final(storage).spec_use_pool() == old(storage).spec_use_pool(),
        final(storage).pool_capacity() == old(storage).pool_capacity(),
        ({
            let path = filename::spec_sst_path(db_name@, level, run);
            match page {
                Ok(bytes) => old(storage).files().contains_key(path) && bytes@ == page_of(
                    old(storage).files()[path],
                    page_index as int,
                    old(storage).spec_page_size() as int,
                ),
                Err(e) => !old(storage).files().contains_key(path) && e == StoreError::MissingFile,
            }
        }),
{
    let path = filename::sst_path(db_name, level, run);
    storage.get_page(path.as_str(), page_index)
}

/// Page `page_index` of the B-tree index of a run.
pub fn get_btree_page(storage: &mut Storage, db_name: &str, level: Level, run: Run, page_index: Page) -> (page:
    Result<Vec<u8>, StoreError>)
    requires
        old(storage).wf(),
    ensures
        final(storage).wf(),
        final(storage).files() == old(storage).files(),
        final(storage).spec_page_size() == old(storage).spec_page_size(),
        final(storage).spec_use_pool() == old(storage).spec_use_pool(),
        final(storage).pool_capacity() == old(storage).pool_capacity(),
        ({
            let path = filename::spec_sst_btree_path(db_name@, level, run);
            match page {
                Ok(bytes) => old(storage).files().contains_key(path) && bytes@ == page_of(
                    old(storage).files()[path],
                    page_index as int,
                    old(storage).spec_page_size() as int,
                ),
                Err(e) => !old(storage).files().contains_key(path) && e == StoreError::MissingFile,
            }
        }),
{
    let path = filename::sst_btree_path(db_name, level, run);
    storage.get_page(path.as_str(), page_index)
}

/// The entries of page `page_index` of a run. Fails where the file is
/// missing, and where the page does not hold whole entries.
pub fn get_entries_at_page(
    storage: &mut Storage,
    db_name: &str,
    level: Level,
    run: Run,
    page_index: Page,
) -> (entries: Result<Vec<Entry>, StoreError>)
    requires
        old(storage).wf(),
    ensures
        final(storage).wf(),
        final(storage).files() == old(storage).files(),
        final(storage).spec_page_size() == old(storage).spec_page_size(),
        final(storage).spec_use_pool() == old(storage).spec_use_pool(),
        final(storage).pool_capacity() == old(storage).pool_capacity(),
        ({
            let path = filename::spec_sst_path(db_name@, level, run);
            let files = old(storage).files();
            let page = page_of(files[path], page_index as int, old(storage).spec_page_size() as int);
            match entries {
                Ok(list) => files.contains_key(path) && page.len() % 16 == 0 && list@
                    == entries_from_bytes(page),
                Err(e) => if files.contains_key(path) {
                    page.len() % 16 != 0 && e == StoreError::Corrupt
                } else {
                    e == StoreError::MissingFile
                },
            }
        }),
{
    match get_sst_page(storage, db_name, level, run, page_index) {
        Ok(page) => deserialize(page.as_slice()),
        Err(e) => Err(e),
    }
}

} // verus!
