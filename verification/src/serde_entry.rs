//! Byte layout of entries: an 8-byte little-endian key followed by an 8-byte
//! little-endian value, entries packed one after another.

use crate::serde_util::{nearest_min_write_size_multiple, round_up};
use crate::system_info::{spec_min_write_size, valid_page_size, ENTRY_SIZE};
use crate::types::{Entry, Key, StoreError, Value};
use vstd::bytes::{
    lemma_auto_spec_u64_to_from_le_bytes, spec_u64_from_le_bytes, spec_u64_to_le_bytes,
    u64_from_le_bytes, u64_to_le_bytes,
};
use vstd::prelude::*;
use vstd::slice::slice_subrange;

verus! {

/// The eight little-endian bytes of a key or a value.
pub open spec fn word_bytes(word: i64) -> Seq<u8> {
    spec_u64_to_le_bytes(word as u64)
}

/// The key or value that eight little-endian bytes stand for.
pub open spec fn word_from_bytes(bytes: Seq<u8>) -> i64 {
    spec_u64_from_le_bytes(bytes) as i64
}

/// The sixteen bytes of one entry.
pub open spec fn entry_bytes(entry: Entry) -> Seq<u8> {
    word_bytes(entry.0) + word_bytes(entry.1)
}

/// The entry held by the first sixteen bytes of `bytes`.
pub open spec fn entry_from_bytes(bytes: Seq<u8>) -> Entry {
    (word_from_bytes(bytes.subrange(0, 8)), word_from_bytes(bytes.subrange(8, 16)))
}

/// The bytes of a sequence of entries, in order.
pub open spec fn entries_bytes(entries: Seq<Entry>) -> Seq<u8>
    decreases entries.len(),
{
    if entries.len() == 0 {
        Seq::empty()
    } else {
        entries_bytes(entries.drop_last()) + entry_bytes(entries.last())
    }
}

/// The sixteen bytes at entry position `index`.
pub open spec fn entry_window(bytes: Seq<u8>, index: int) -> Seq<u8> {
    bytes.subrange(index * 16, index * 16 + 16)
}

/// The whole entries held by `bytes`; bytes after the last whole entry are
/// not looked at.
pub open spec fn entries_from_bytes(bytes: Seq<u8>) -> Seq<Entry> {
    Seq::new((bytes.len() / 16) as nat, |i: int| entry_from_bytes(entry_window(bytes, i)))
}

pub proof fn lemma_word_round_trip(word: i64)
    ensures
        word_bytes(word).len() == 8,
        word_from_bytes(word_bytes(word)) == word,
{
    lemma_auto_spec_u64_to_from_le_bytes();
    assert((word as u64) as i64 == word) by (bit_vector);
}

pub proof fn lemma_bytes_round_trip(bytes: Seq<u8>)
    requires
        bytes.len() == 8,
    ensures
        word_bytes(word_from_bytes(bytes)) == bytes,
{
    lemma_auto_spec_u64_to_from_le_bytes();
    let x = spec_u64_from_le_bytes(bytes);
    assert((x as i64) as u64 == x) by (bit_vector);
}

pub proof fn lemma_entry_round_trip(entry: Entry)
    ensures
        entry_bytes(entry).len() == 16,
        entry_from_bytes(entry_bytes(entry)) == entry,
{
    lemma_word_round_trip(entry.0);
    lemma_word_round_trip(entry.1);
    let bytes = entry_bytes(entry);
    assert(bytes.subrange(0, 8) =~= word_bytes(entry.0));
    assert(bytes.subrange(8, 16) =~= word_bytes(entry.1));
}

pub proof fn lemma_entries_bytes_len(entries: Seq<Entry>)
    ensures
        entries_bytes(entries).len() == 16 * entries.len(),
    decreases entries.len(),
{
    if entries.len() > 0 {
        lemma_entries_bytes_len(entries.drop_last());
        lemma_entry_round_trip(entries.last());
    }
}

/// Inside the bytes of a sequence of entries, the window at position `index`
/// holds the bytes of the entry at `index`.
pub proof fn lemma_entries_bytes_window(entries: Seq<Entry>, index: int)
    requires
        0 <= index < entries.len(),
    ensures
        entry_window(entries_bytes(entries), index) == entry_bytes(entries[index]),
    decreases entries.len(),
{
    let front = entries.drop_last();
    lemma_entries_bytes_len(front);
    lemma_entry_round_trip(entries.last());
    if index == entries.len() - 1 {
        assert(entry_window(entries_bytes(entries), index) =~= entry_bytes(entries.last()));
    } else {
        lemma_entries_bytes_window(front, index);
        assert(entry_window(entries_bytes(entries), index) =~= entry_window(
            entries_bytes(front),
            index,
        ));
    }
}

/// Appending the bytes of two sequences of entries gives the bytes of the
/// sequences appended.
pub proof fn lemma_entries_bytes_concat(a: Seq<Entry>, b: Seq<Entry>)
    ensures
        entries_bytes(a + b) == entries_bytes(a) + entries_bytes(b),
    decreases b.len(),
{
    if b.len() == 0 {
        assert(a + b =~= a);
        assert(entries_bytes(a) + entries_bytes(b) =~= entries_bytes(a));
    } else {
        lemma_entries_bytes_concat(a, b.drop_last());
        assert((a + b).drop_last() =~= a + b.drop_last());
        assert((a + b).last() == b.last());
        assert(entries_bytes(a + b) =~= entries_bytes(a) + entries_bytes(b));
    }
}

/// Writing entries out and reading the bytes back gives the entries again.
pub proof fn lemma_serde_round_trip(entries: Seq<Entry>)
    ensures
        entries_bytes(entries).len() == 16 * entries.len(),
        entries_from_bytes(entries_bytes(entries)) == entries,
{
    lemma_entries_bytes_len(entries);
    let bytes = entries_bytes(entries);
    let back = entries_from_bytes(bytes);
    assert(back.len() == entries.len());
    assert forall|i: int| 0 <= i < entries.len() implies back[i] == entries[i] by {
        lemma_entries_bytes_window(entries, i);
        lemma_entry_round_trip(entries[i]);
    }
    assert(back =~= entries);
}

/// Reading whole entries out of bytes and writing them back gives the bytes
/// again.
pub proof fn lemma_serde_round_trip_bytes(bytes: Seq<u8>)
    requires
        bytes.len() % 16 == 0,
    ensures
        entries_bytes(entries_from_bytes(bytes)) == bytes,
    decreases bytes.len(),
{
    let entries = entries_from_bytes(bytes);
    if bytes.len() == 0 {
        assert(entries.len() == 0);
        assert(entries_bytes(entries) =~= bytes);
    } else {
        let n = entries.len() as int;
        assert(bytes.len() == 16 * n);
        let front_bytes = bytes.subrange(0, bytes.len() - 16);
        let front = entries_from_bytes(front_bytes);
        assert(front.len() == n - 1);
        assert forall|i: int| 0 <= i < n - 1 implies front[i] == entries.drop_last()[i] by {
            assert(entry_window(front_bytes, i) =~= entry_window(bytes, i));
        }
        assert(front =~= entries.drop_last());
        lemma_serde_round_trip_bytes(front_bytes);
        let last = entry_window(bytes, n - 1);
        lemma_bytes_round_trip(last.subrange(0, 8));
        lemma_bytes_round_trip(last.subrange(8, 16));
        assert(entry_bytes(entries.last()) =~= last);
        assert(entries_bytes(entries) =~= bytes);
    }
}

fn push_word(buffer: &mut Vec<u8>, word: i64)
    ensures
        final(buffer)@ == old(buffer)@ + word_bytes(word),
{
    let mut bytes = u64_to_le_bytes(#[verifier::truncate] (word as u64));
    buffer.append(&mut bytes);
}

/// `len` bytes of zero.
pub open spec fn zero_bytes(len: int) -> Seq<u8> {
    Seq::new(len as nat, |i: int| 0u8)
}

/// The bytes of `entries` as they are written out: followed by zeros up to
/// a whole number of the smallest blocks that may be written.
pub open spec fn padded_bytes(entries: Seq<Entry>, page_size: usize) -> Seq<u8> {
    entries_bytes(entries) + zero_bytes(
        round_up((16 * entries.len()) as int, spec_min_write_size(page_size) as int) - 16 * entries.len(),
    )
}

/// The little-endian bytes of `entries`, sixteen for each.
pub fn serialize(entries: &[Entry]) -> (buffer: Vec<u8>)
    ensures
        buffer@ == entries_bytes(entries@),
        buffer@.len() == 16 * entries@.len(),
{
    let mut buffer: Vec<u8> = Vec::new();
    let mut i: usize = 0;
    while i < entries.len()
        invariant
            0 <= i <= entries@.len(),
            buffer@ == entries_bytes(entries@.take(i as int)),
        decreases entries@.len() - i,
    {
        let (key, value) = entries[i];
        push_word(&mut buffer, key);
        push_word(&mut buffer, value);
        proof {
            let next = entries@.take(i + 1);
            assert(next.drop_last() =~= entries@.take(i as int));
            assert(next.last() == entries@[i as int]);
            assert(buffer@ =~= entries_bytes(next.drop_last()) + entry_bytes(next.last()));
        }
        i += 1;
    }
    proof {
        assert(entries@.take(i as int) =~= entries@);
        lemma_entries_bytes_len(entries@);
    }
    buffer
}

fn word_at(buffer: &[u8], start: usize) -> (word: i64)
    requires
        start + 8 <= buffer@.len(),
    ensures
        word == word_from_bytes(buffer@.subrange(start as int, start + 8)),
{
    let len = buffer.len();
    let window = slice_subrange(buffer, start, start + 8);
    #[verifier::truncate]
    (u64_from_le_bytes(window) as i64)
}

/// Reads an entry out of a buffer of exactly sixteen bytes.
pub fn deserialize_entry(buffer: &[u8]) -> (entry: Result<Entry, StoreError>)
    ensures
        buffer@.len() == 16 ==> entry == Ok::<Entry, StoreError>(entry_from_bytes(buffer@)),
        buffer@.len() != 16 ==> entry == Err::<Entry, StoreError>(StoreError::Corrupt),
{
    if buffer.len() != ENTRY_SIZE {
        return Err(StoreError::Corrupt);
    }
    let key: Key = word_at(buffer, 0);
    let value: Value = word_at(buffer, 8);
    Ok((key, value))
}

/// Reads the entry at position `entry_index` of a page that holds that
/// position in full.
pub fn deserialize_entry_within_page(buffer: &[u8], entry_index: usize) -> (entry: Result<
    Entry,
    StoreError,
>)
    requires
        (entry_index + 1) * 16 <= buffer@.len(),
    ensures
        entry == Ok::<Entry, StoreError>(entries_from_bytes(buffer@)[entry_index as int]),
{
    // The position lies within the buffer, whose length can be counted.
    let buffer_len: usize = buffer.len();
    let start: usize = entry_index * ENTRY_SIZE;
    let key: Key = word_at(buffer, start);
    let value: Value = word_at(buffer, start + 8);
    proof {
        let window = entry_window(buffer@, entry_index as int);
        assert(window.subrange(0, 8) =~= buffer@.subrange(start as int, start + 8));
        assert(window.subrange(8, 16) =~= buffer@.subrange(start + 8, start + 16));
    }
    Ok((key, value))
}

/// Reads all entries of a buffer; succeeds exactly when the buffer holds
/// whole entries only.
pub fn deserialize(buffer: &[u8]) -> (entries: Result<Vec<Entry>, StoreError>)
    ensures
        buffer@.len() % 16 == 0 ==> entries.is_ok() && entries.unwrap()@ == entries_from_bytes(
            buffer@,
        ),
        buffer@.len() % 16 != 0 ==> entries == Err::<Vec<Entry>, StoreError>(StoreError::Corrupt),
{
    let num_entries: usize = buffer.len() / ENTRY_SIZE;
    if buffer.len() % ENTRY_SIZE != 0 {
        return Err(StoreError::Corrupt);
    }
    let mut entries: Vec<Entry> = Vec::new();
    let mut i: usize = 0;
    while i < num_entries
        invariant
            num_entries == buffer@.len() / 16,
            buffer@.len() <= usize::MAX,
            0 <= i <= num_entries,
            entries@ == entries_from_bytes(buffer@).take(i as int),
        decreases num_entries - i,
    {
        let start: usize = i * ENTRY_SIZE;
        let key: Key = word_at(buffer, start);
        let value: Value = word_at(buffer, start + 8);
        proof {
            let window = entry_window(buffer@, i as int);
            assert(window.subrange(0, 8) =~= buffer@.subrange(start as int, start + 8));
            assert(window.subrange(8, 16) =~= buffer@.subrange(start + 8, start + 16));
        }
        entries.push((key, value));
        assert(entries@ =~= entries_from_bytes(buffer@).take(i + 1));
        i += 1;
    }
    assert(entries@ =~= entries_from_bytes(buffer@));
    Ok(entries)
}

/// Appends to `writer` the bytes of `entries`, followed by zeros up to a
/// whole number of the smallest blocks that may be written; returns the
/// number of bytes that the entries take.
pub fn serialize_into_no_resize(writer: &mut Vec<u8>, entries: &[Entry], page_size: usize) -> (written:
    usize)
    requires
        valid_page_size(page_size),
        16 * entries@.len() + page_size <= usize::MAX,
    ensures
        written == 16 * entries@.len(),
        final(writer)@ == old(writer)@ + padded_bytes(entries@, page_size),
{
    let mut buffer = serialize(entries);
    let buffer_len: usize = buffer.len();
    let padded_len: usize = nearest_min_write_size_multiple(buffer_len, page_size);
    while buffer.len() < padded_len
        invariant
            buffer_len <= buffer@.len() <= padded_len,
            buffer_len == entries_bytes(entries@).len(),
            buffer@ == entries_bytes(entries@) + zero_bytes(buffer@.len() - buffer_len),
        decreases padded_len - buffer@.len(),
    {
        buffer.push(0u8);
        assert(buffer@ =~= entries_bytes(entries@) + zero_bytes(buffer@.len() - buffer_len));
    }
    writer.append(&mut buffer);
    buffer_len
}

/// Appends to `writer` the bytes of `entries`: they are written out in
/// whole blocks, and what was written beyond them is cut off again.
pub fn serialize_into(writer: &mut Vec<u8>, entries: &[Entry], page_size: usize)
    requires
        valid_page_size(page_size),
        16 * entries@.len() + page_size <= usize::MAX,
        old(writer)@.len() + 16 * entries@.len() <= usize::MAX,
    ensures
        final(writer)@ == old(writer)@ + entries_bytes(entries@),
{
    let start: usize = writer.len();
    let buffer_len: usize = serialize_into_no_resize(writer, entries, page_size);
    proof {
        lemma_entries_bytes_len(entries@);
    }
    writer.truncate(start + buffer_len);
    assert(writer@ =~= old(writer)@ + entries_bytes(entries@));
}

/// Reads the entries of a whole file.
pub fn deserialize_from(source: &[u8], page_size: usize) -> (entries: Result<Vec<Entry>, StoreError>)
    requires
        valid_page_size(page_size),
    ensures
        source@.len() % 16 == 0 ==> entries.is_ok() && entries.unwrap()@ == entries_from_bytes(
            source@,
        ),
        source@.len() % 16 != 0 ==> entries == Err::<Vec<Entry>, StoreError>(StoreError::Corrupt),
{
    let buffer_size: usize = if source.len() <= usize::MAX - page_size {
        nearest_min_write_size_multiple(source.len(), page_size)
    } else {
        source.len()
    };
    assert(source@.take(source@.len() as int) =~= source@);
    buffered_deserialize_from(source, buffer_size)
}

/// Reads at most `buffer_size` bytes from the start of `source` and turns
/// them into entries.
pub fn buffered_deserialize_from(source: &[u8], buffer_size: usize) -> (entries: Result<
    Vec<Entry>,
    StoreError,
>)
    ensures
        ({
            let taken = if buffer_size < source@.len() {
                buffer_size as int
            } else {
                source@.len() as int
            };
            &&& taken % 16 == 0 ==> entries.is_ok() && entries.unwrap()@ == entries_from_bytes(
                source@.take(taken),
            )
            &&& taken % 16 != 0 ==> entries == Err::<Vec<Entry>, StoreError>(StoreError::Corrupt)
        }),
{
    let taken: usize = if buffer_size < source.len() {
        buffer_size
    } else {
        source.len()
    };
    let window = slice_subrange(source, 0, taken);
    assert(window@ =~= source@.take(taken as int));
    deserialize(window)
}

/// Reads the entries of page `page_index` of a file with pages of
/// `page_size` bytes; succeeds exactly when the page holds whole entries
/// only.
pub fn deserialize_page(source: &[u8], page_index: usize, page_size: usize) -> (entries: Result<
    Vec<Entry>,
    StoreError,
>)
    ensures
        ({
            let page = crate::direct_io::page_of(source@, page_index as int, page_size as int);
            &&& page.len() % 16 == 0 ==> entries.is_ok() && entries.unwrap()@ == entries_from_bytes(
                page,
            )
            &&& page.len() % 16 != 0 ==> entries == Err::<Vec<Entry>, StoreError>(StoreError::Corrupt)
        }),
{
    let len: usize = source.len();
    let start: usize = match page_index.checked_mul(page_size) {
        Some(offset) => if offset < len {
            offset
        } else {
            len
        },
        None => len,
    };
    let end: usize = if len - start > page_size {
        start + page_size
    } else {
        len
    };
    proof {
        assert(start == crate::direct_io::at_most(page_index * page_size, len as int));
        assert(end == crate::direct_io::at_most((page_index + 1) * page_size, len as int))
            by (nonlinear_arith)
            requires
                start == crate::direct_io::at_most(page_index * page_size, len as int),
                end == (if len - start > page_size {
                    start + page_size
                } else {
                    len as int
                }),
                0 <= start <= len,
        ;
    }
    deserialize(slice_subrange(source, start, end))
}

} // verus!
