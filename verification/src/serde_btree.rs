//! Byte layout of an inner node of a static B-tree: ascending 8-byte
//! little-endian keys, zero padding, and in the last eight bytes of the page
//! the number of keys.

use crate::btree_info::{node_fanout, spec_fanout, NODE_ELEMENT_SIZE};
use crate::serde_entry::{ lemma_word_round_trip, word_bytes, word_from_bytes, zero_bytes,
};
use crate::system_info::valid_page_size;
use crate::types::{Key, StoreError};
use vstd::bytes::{u64_from_le_bytes, u64_to_le_bytes};
use vstd::prelude::*;
use vstd::slice::slice_subrange;

verus! {

/// The bytes of a sequence of keys, eight for each.
pub open spec fn keys_bytes(keys: Seq<Key>) -> Seq<u8>
    decreases keys.len(),
{
    if keys.len() == 0 {
        Seq::empty()
    } else {
        keys_bytes(keys.drop_last()) + word_bytes(keys.last())
    }
}

/// How many of `given` delimiters a node keeps: all but the last of the
/// first `fanout`.
pub open spec fn kept_keys(given: int, fanout: int) -> int {
    if given < fanout {
        given - 1
    } else {
        fanout - 1
    }
}

/// The page of an inner node that holds `keys`.
pub open spec fn node_bytes(keys: Seq<Key>, page_size: usize) -> Seq<u8> {
    keys_bytes(keys) + zero_bytes(page_size - 8 - 8 * keys.len()) + word_bytes(keys.len() as i64)
}

/// The eight bytes at key position `index`.
pub open spec fn key_window(bytes: Seq<u8>, index: int) -> Seq<u8> {
    bytes.subrange(index * 8, index * 8 + 8)
}

/// The number of keys that a node page records in its last eight bytes.
pub open spec fn node_count(bytes: Seq<u8>) -> i64 {
    word_from_bytes(bytes.subrange(bytes.len() - 8, bytes.len() as int))
}

/// The first `count` keys of a node page.
pub open spec fn node_keys(bytes: Seq<u8>, count: int) -> Seq<Key> {
    Seq::new(count as nat, |i: int| word_from_bytes(key_window(bytes, i)))
}

/// A page that an inner node can be read from: one page long, with a count
/// that leaves room for itself.
pub open spec fn node_page_ok(bytes: Seq<u8>, page_size: usize) -> bool {
    &&& bytes.len() == page_size
    &&& 0 <= node_count(bytes) <= spec_fanout(page_size) - 1
}

pub proof fn lemma_keys_bytes_len(keys: Seq<Key>)
    ensures
        keys_bytes(keys).len() == 8 * keys.len(),
    decreases keys.len(),
{
    if keys.len() > 0 {
        lemma_keys_bytes_len(keys.drop_last());
        lemma_word_round_trip(keys.last());
    }
}

pub proof fn lemma_keys_bytes_window(keys: Seq<Key>, index: int)
    requires
        0 <= index < keys.len(),
    ensures
        key_window(keys_bytes(keys), index) == word_bytes(keys[index]),
    decreases keys.len(),
{
    let front = keys.drop_last();
    lemma_keys_bytes_len(front);
    lemma_word_round_trip(keys.last());
    if index == keys.len() - 1 {
        assert(key_window(keys_bytes(keys), index) =~= word_bytes(keys.last()));
    } else {
        lemma_keys_bytes_window(front, index);
        assert(key_window(keys_bytes(keys), index) =~= key_window(keys_bytes(front), index));
    }
}

/// Reading a node page that was written from `keys` gives `keys` again.
pub proof fn lemma_node_round_trip(keys: Seq<Key>, page_size: usize)
    requires
        valid_page_size(page_size),
        keys.len() <= spec_fanout(page_size) - 1,
    ensures
        node_page_ok(node_bytes(keys, page_size), page_size),
        node_count(node_bytes(keys, page_size)) == keys.len(),
        node_keys(node_bytes(keys, page_size), keys.len() as int) == keys,
{
    let bytes = node_bytes(keys, page_size);
    let count = keys.len() as i64;
    lemma_keys_bytes_len(keys);
    lemma_word_round_trip(count);
    assert(bytes.len() == page_size);
    assert(bytes.subrange(bytes.len() - 8, bytes.len() as int) =~= word_bytes(count));
    let back = node_keys(bytes, keys.len() as int);
    assert forall|i: int| 0 <= i < keys.len() implies back[i] == keys[i] by {
        lemma_keys_bytes_window(keys, i);
        assert(key_window(bytes, i) =~= key_window(keys_bytes(keys), i));
        lemma_word_round_trip(keys[i]);
    }
    assert(back =~= keys);
}

/// The page of the inner node built from the delimiters `node_elements`.
/// Of at most `fanout` leading delimiters all but the last are written: the
/// last one belongs to the rightmost child, which needs no key.
pub fn serialize(node_elements: &[Key], page_size: usize) -> (buffer: Vec<u8>)
    requires
        valid_page_size(page_size),
        node_elements@.len() >= 1,
    ensures
        buffer@ == node_bytes(
            node_elements@.take(kept_keys(node_elements@.len() as int, spec_fanout(page_size) as int)),
            page_size,
        ),
        buffer@.len() == page_size,
{
    let fanout: usize = node_fanout(page_size);
    let node_len: usize = if node_elements.len() < fanout {
        node_elements.len() - 1
    } else {
        fanout - 1
    };
    let ghost keys = node_elements@.take(node_len as int);
    let mut buffer: Vec<u8> = Vec::new();
    let mut i: usize = 0;
    while i < node_len
        invariant
            0 <= i <= node_len <= node_elements@.len(),
            keys == node_elements@.take(node_len as int),
            buffer@ == keys_bytes(keys.take(i as int)),
        decreases node_len - i,
    {
        let mut bytes = u64_to_le_bytes(#[verifier::truncate] (node_elements[i] as u64));
        buffer.append(&mut bytes);
        proof {
            let next = keys.take(i + 1);
            assert(next.drop_last() =~= keys.take(i as int));
            assert(next.last() == node_elements@[i as int]);
        }
        i += 1;
    }
    proof {
        assert(keys.take(node_len as int) =~= keys);
        lemma_keys_bytes_len(keys);
    }
    let padded_len: usize = page_size - NODE_ELEMENT_SIZE;
    while buffer.len() < padded_len
        invariant
            buffer@.len() <= padded_len,
            8 * keys.len() <= padded_len,
            keys_bytes(keys).len() == 8 * keys.len(),
            buffer@ == keys_bytes(keys) + zero_bytes(buffer@.len() - 8 * keys.len()),
        decreases padded_len - buffer@.len(),
    {
        buffer.push(0u8);
        assert(buffer@ =~= keys_bytes(keys) + zero_bytes(buffer@.len() - 8 * keys.len()));
    }
    let mut count_bytes = u64_to_le_bytes(node_len as u64);
    proof {
        assert(node_len as u64 == (node_len as i64) as u64) by (bit_vector)
            requires
                node_len < 0x1000_0000usize,
        ;
    }
    buffer.append(&mut count_bytes);
    buffer
}

/// Appends to `writer` the page of the inner node built from the
/// delimiters `node_elements`.
pub fn serialize_into(writer: &mut Vec<u8>, node_elements: &[Key], page_size: usize)
    requires
        valid_page_size(page_size),
        node_elements@.len() >= 1,
    ensures
        final(writer)@ == old(writer)@ + node_bytes(
            node_elements@.take(kept_keys(node_elements@.len() as int, spec_fanout(page_size) as int)),
            page_size,
        ),
{
    let mut buffer = serialize(node_elements, page_size);
    writer.append(&mut buffer);
}

/// Reads one key out of a buffer of exactly eight bytes.
pub fn deserialize_element(buffer: &[u8]) -> (key: Result<Key, StoreError>)
    ensures
        buffer@.len() == 8 ==> key == Ok::<Key, StoreError>(word_from_bytes(buffer@)),
        buffer@.len() != 8 ==> key == Err::<Key, StoreError>(StoreError::Corrupt),
{
    if buffer.len() != NODE_ELEMENT_SIZE {
        return Err(StoreError::Corrupt);
    }
    Ok(#[verifier::truncate] (u64_from_le_bytes(buffer) as i64))
}

/// Reads the number of keys that the last eight bytes of a node page record.
pub fn deserialize_node_metadata(buffer: &[u8]) -> (count: Result<usize, StoreError>)
    ensures
        match count {
            Ok(n) => buffer@.len() >= 8 && n == node_count(buffer@) && node_count(buffer@) >= 0,
            Err(e) => e == StoreError::Corrupt && (buffer@.len() < 8 || node_count(buffer@) < 0
                || node_count(buffer@) > usize::MAX),
        },
{
    if buffer.len() < NODE_ELEMENT_SIZE {
        return Err(StoreError::Corrupt);
    }
    let window = slice_subrange(buffer, buffer.len() - NODE_ELEMENT_SIZE, buffer.len());
    let raw: u64 = u64_from_le_bytes(window);
    if raw > 0x7fff_ffff_ffff_ffff {
        assert((raw as i64) < 0) by (bit_vector)
            requires
                raw > 0x7fff_ffff_ffff_ffffu64,
        ;
        return Err(StoreError::Corrupt);
    }
    assert((raw as i64) >= 0 && (raw as i64) as u64 == raw) by (bit_vector)
        requires
            raw <= 0x7fff_ffff_ffff_ffffu64,
    ;
    if raw > usize::MAX as u64 {
        return Err(StoreError::Corrupt);
    }
    Ok(raw as usize)
}

/// Reads the keys of an inner node; succeeds exactly on a page of
/// `page_size` bytes whose count leaves room for itself.
pub fn deserialize(buffer: &[u8], page_size: usize) -> (keys: Result<Vec<Key>, StoreError>)
    requires
        valid_page_size(page_size),
    ensures
        node_page_ok(buffer@, page_size) ==> keys.is_ok() && keys.unwrap()@ == node_keys(
            buffer@,
            node_count(buffer@) as int,
        ),
        !node_page_ok(buffer@, page_size) ==> keys == Err::<Vec<Key>, StoreError>(
            StoreError::Corrupt,
        ),
{
    if buffer.len() != page_size {
        return Err(StoreError::Corrupt);
    }
    let count: usize = match deserialize_node_metadata(buffer) {
        Ok(n) => n,
        Err(_) => {
            return Err(StoreError::Corrupt);
        },
    };
    if count > node_fanout(page_size) - 1 {
        return Err(StoreError::Corrupt);
    }
    let mut keys: Vec<Key> = Vec::new();
    let mut i: usize = 0;
    while i < count
        invariant
            0 <= i <= count,
            count * 8 <= buffer@.len() - 8,
            buffer@.len() <= usize::MAX,
            keys@ == node_keys(buffer@, count as int).take(i as int),
        decreases count - i,
    {
        let window = slice_subrange(buffer, i * NODE_ELEMENT_SIZE, i * NODE_ELEMENT_SIZE + 8);
        let key: Key = #[verifier::truncate] (u64_from_le_bytes(window) as i64);
        keys.push(key);
        assert(keys@ =~= node_keys(buffer@, count as int).take(i + 1));
        i += 1;
    }
    assert(keys@ =~= node_keys(buffer@, count as int));
    Ok(keys)
}

} // verus!
