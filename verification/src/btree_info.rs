//! Geometry of the inner nodes of a static B-tree: a node fills one page.

use crate::system_info::{page_size, valid_page_size};
use vstd::prelude::*;

verus! {

/// Bytes taken by one key inside an inner node.
pub const NODE_ELEMENT_SIZE: usize = 8;

/// Page of the index file that holds the root node.
pub const ROOT_PAGE_OFFSET: usize = 0;

pub open spec fn spec_fanout(page_size: usize) -> usize {
    page_size / NODE_ELEMENT_SIZE
}

/// Largest number of children of an inner node that fills a page of
/// `page_size` bytes.
pub fn node_fanout(page_size: usize) -> (fanout: usize)
    ensures
        fanout == spec_fanout(page_size),
        valid_page_size(page_size) ==> fanout >= 2 && fanout * NODE_ELEMENT_SIZE == page_size,
{
    page_size / NODE_ELEMENT_SIZE
}

/// Size in bytes of an inner node on this machine.
pub fn node_size() -> (size: usize)
    ensures
        valid_page_size(size),
{
    page_size()
}

/// Largest number of children of an inner node on this machine.
pub fn fanout() -> (fanout: usize)
    ensures
        exists|p: usize| valid_page_size(p) && fanout == spec_fanout(p),
        fanout >= 2,
{
    node_fanout(node_size())
}

} // verus!
