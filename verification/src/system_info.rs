//! Page geometry: the page size of the machine and the sizes derived from it.

use vstd::prelude::*;

verus! {

/// Bytes taken by one entry: an 8-byte key followed by an 8-byte value.
pub const ENTRY_SIZE: usize = 16;

/// Page size used when the machine reports one that cannot hold whole entries.
pub const DEFAULT_PAGE_SIZE: usize = 4096;

/// Largest page size the store works with.
pub const MAX_PAGE_SIZE: usize = 0x4000_0000;

/// A page size the store can work with: it holds at least one entry, and
/// only whole entries.
pub open spec fn valid_page_size(page_size: usize) -> bool {
    &&& ENTRY_SIZE <= page_size <= MAX_PAGE_SIZE
    &&& page_size % ENTRY_SIZE == 0
}

/// Calls `page_size::get`, which asks the operating system for its memory
/// page size. Nothing is claimed of the number that comes back.
#[verifier::external_body]
fn system_page_size() -> usize {
    page_size::get()
}

/// Whether `page_size` can be used by the store.
pub fn is_valid_page_size(page_size: usize) -> (valid: bool)
    ensures
        valid == valid_page_size(page_size),
{
    ENTRY_SIZE <= page_size && page_size <= MAX_PAGE_SIZE && page_size % ENTRY_SIZE == 0
}

/// The page size to work with, given what the system reported.
pub fn usable_page_size(reported: usize) -> (size: usize)
    ensures
        valid_page_size(size),
        size == if valid_page_size(reported) { reported } else { DEFAULT_PAGE_SIZE },
{
    if is_valid_page_size(reported) {
        reported
    } else {
        DEFAULT_PAGE_SIZE
    }
}

/// The machine's page size where the store can use it, `DEFAULT_PAGE_SIZE`
/// otherwise.
pub fn page_size() -> (size: usize)
    ensures
        valid_page_size(size),
{
    usable_page_size(system_page_size())
}

pub open spec fn spec_entries_per_page(page_size: usize) -> usize {
    page_size / ENTRY_SIZE
}

/// Number of entries that fit in a page of `page_size` bytes.
pub fn entries_per_page(page_size: usize) -> (n: usize)
    ensures
        n == spec_entries_per_page(page_size),
        valid_page_size(page_size) ==> n >= 1 && n * ENTRY_SIZE == page_size,
{
    page_size / ENTRY_SIZE
}

pub open spec fn spec_min_write_size(page_size: usize) -> usize {
    page_size / 8
}

/// Smallest block that a direct write may carry, for pages of `page_size` bytes.
pub fn min_write_size(page_size: usize) -> (n: usize)
    ensures
        n == spec_min_write_size(page_size),
        valid_page_size(page_size) ==> n >= 2,
{
    page_size / 8
}

/// Number of entries that fit in one page of this machine.
pub fn num_entries_per_page() -> (n: usize)
    ensures
        exists|p: usize| valid_page_size(p) && n == spec_entries_per_page(p),
        n >= 1,
{
    entries_per_page(page_size())
}

/// Smallest block that a direct write may carry on this machine.
pub fn mimimum_write_size() -> (n: usize)
    ensures
        exists|p: usize| valid_page_size(p) && n == spec_min_write_size(p),
        n >= 2,
{
    min_write_size(page_size())
}

} // verus!
