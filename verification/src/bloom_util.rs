//! Sizes and positions inside the bitmap of a Bloom filter.

use crate::direct_io::page_of;
use crate::file_interface::Storage;
use crate::filename;
use crate::types::{Level, Page, Run, Size, StoreError};
use vstd::prelude::*;

verus! {

pub const BYTE_SIZE: usize = 8;

/// Numerator of the fraction that stands for the natural logarithm of 2.
pub const LN_2_NUMERATOR: u128 = 6931471805599453;

/// Denominator of the fraction that stands for the natural logarithm of 2.
pub const LN_2_DENOMINATOR: u128 = 10000000000000000;

pub open spec fn spec_bitmap_len(num_entries: Size, bits_per_entry: Size) -> int {
    (num_entries * bits_per_entry + 7) / 8
}

/// Number of bytes of the bitmap for `num_entries` entries at
/// `bits_per_entry` bits each, rounded up to whole bytes.
pub fn bitmap_len(num_entries: Size, bits_per_entry: Size) -> (len: Size)
    requires
        num_entries * bits_per_entry + 7 <= usize::MAX,
    ensures
        len == spec_bitmap_len(num_entries, bits_per_entry),
{
    assert(num_entries * bits_per_entry >= 0) by (nonlinear_arith);
    (num_entries * bits_per_entry + 7) / 8
}

/// Number of bits of the bitmap for `num_entries` entries at
/// `bits_per_entry` bits each.
pub fn bitmap_num_bits(num_entries: Size, bits_per_entry: Size) -> (bits: Size)
    requires
        num_entries * bits_per_entry + 7 <= usize::MAX,
    ensures
        bits == spec_bitmap_len(num_entries, bits_per_entry) * 8,
{
    assert(num_entries * bits_per_entry >= 0) by (nonlinear_arith);
    (num_entries * bits_per_entry + 7) / 8 * 8
}

/// Byte and bit within the byte of position `bitmap_index` of a bitmap.
pub fn bit_index(bitmap_index: usize) -> (position: (usize, usize))
    ensures
        position.0 == bitmap_index / 8,
        position.1 == bitmap_index % 8,
{
    (bitmap_index / BYTE_SIZE, bitmap_index % BYTE_SIZE)
}

/// Page, byte within the page and bit within the byte of position
/// `bitmap_index` of a bitmap that is stored in pages of `page_size` bytes.
pub fn page_bit_index(bitmap_index: usize, page_size: usize) -> (position: (Page, usize, usize))
    requires
        page_size > 0,
    ensures
        position.0 == (bitmap_index / 8) / page_size,
        position.1 == (bitmap_index / 8) % page_size,
        position.2 == bitmap_index % 8,
        position.0 * page_size * 8 + position.1 * 8 + position.2 == bitmap_index,
{
    let (byte_index, bit) = bit_index(bitmap_index);
    let page_index: usize = byte_index / page_size;
    let byte_within_page_index: usize = byte_index % page_size;
    proof {
        vstd::arithmetic::div_mod::lemma_fundamental_div_mod(byte_index as int, page_size as int);
        assert(page_index * page_size * 8 + byte_within_page_index * 8 + bit == bitmap_index)
            by (nonlinear_arith)
            requires
                byte_index == page_size * page_index + byte_within_page_index,
                bitmap_index == 8 * byte_index + bit,
        ;
    }
    (page_index, byte_within_page_index, bit)
}

/// The number of hash functions that suits `bits_per_entry`: the product
/// of `bits_per_entry` and the natural logarithm of 2, taken as
/// 0.6931471805599453 and rounded up, and at least 1.
pub open spec fn spec_num_hash_functions(bits_per_entry: usize) -> int {
    let product = bits_per_entry * 6931471805599453;
    let rounded_up = (product + 10000000000000000 - 1) / 10000000000000000;
    if rounded_up < 1 {
        1
    } else {
        rounded_up
    }
}

/// The number of hash functions of a filter with `bits_per_entry` bits for
/// each entry.
pub fn num_hash_functions(bits_per_entry: usize) -> (count: usize)
    ensures
        count == spec_num_hash_functions(bits_per_entry),
        1 <= count,
        count <= bits_per_entry || count == 1,
{
    let product: u128 = (bits_per_entry as u128) * LN_2_NUMERATOR;
    let rounded_up: u128 = (product + (LN_2_DENOMINATOR - 1)) / LN_2_DENOMINATOR;
    proof {
        let b = bits_per_entry as int;
        assert(rounded_up <= b) by (nonlinear_arith)
            requires
                rounded_up == (b * 6931471805599453 + 10000000000000000 - 1) / 10000000000000000,
                b >= 0,
        ;
    }
    if rounded_up < 1 {
        1
    } else {
        rounded_up as usize
    }
}

/// Page `page_index` of the Bloom filter of a run.
pub fn get_bloom_page(storage: &mut Storage, db_name: &str, level: Level, run: Run, page_index: Page) -> (page:
    Result<Vec<u8>, StoreError>)
    requires
        old(storage).wf(),
    ensures
        final(storage).wf(),
        final(storage).files() == old(storage).files(),
        final(storage).spec_page_size() == old(storage).spec_page_size(),
        final(storage).spec_use_pool() == old(storage).spec_use_pool(),
        final(storage).pool_capacity() == old(storage).pool_capacity(),
        ({
            let path = filename::spec_bloom_filter_path(db_name@, level, run);
            match page {
                Ok(bytes) => old(storage).files().contains_key(path) && bytes@ == page_of(
                    old(storage).files()[path],
                    page_index as int,
                    old(storage).spec_page_size() as int,
                ),
                Err(e) => !old(storage).files().contains_key(path) && e == StoreError::MissingFile,
            }
        }),
{
    let path = filename::bloom_filter_path(db_name, level, run);
    storage.get_page(path.as_str(), page_index)
}

} // verus!
