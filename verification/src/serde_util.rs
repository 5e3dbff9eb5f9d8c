//! Sizes of the blocks that are written out.

use crate::system_info::{min_write_size, spec_min_write_size, valid_page_size};
use vstd::prelude::*;

verus! {

/// The smallest multiple of `unit` that is not below `size`.
pub open spec fn round_up(size: int, unit: int) -> int {
    if size % unit == 0 {
        size
    } else {
        size - size % unit + unit
    }
}

/// `size` rounded up to a whole number of minimum write blocks, for pages of
/// `page_size` bytes.
pub fn nearest_min_write_size_multiple(size: usize, page_size: usize) -> (rounded: usize)
    requires
        valid_page_size(page_size),
        size + page_size <= usize::MAX,
    ensures
        rounded == round_up(size as int, spec_min_write_size(page_size) as int),
        rounded >= size,
        rounded < size + spec_min_write_size(page_size),
        rounded % spec_min_write_size(page_size) == 0,
{
    let unit: usize = min_write_size(page_size);
    let rest: usize = size % unit;
    if rest == 0 {
        size
    } else {
        assert(rest <= size) by {
            vstd::arithmetic::div_mod::lemma_mod_decreases(size as nat, unit as nat);
        }
        let rounded: usize = size - rest + unit;
        assert(rounded % unit == 0) by {
            vstd::arithmetic::div_mod::lemma_fundamental_div_mod(size as int, unit as int);
            assert(size - rest == unit * (size / unit));
            vstd::arithmetic::div_mod::lemma_mod_multiples_basic((size / unit) as int + 1, unit as int);
            assert((size / unit + 1) * unit == unit * (size / unit) + unit) by (nonlinear_arith);
        }
        rounded
    }
}

} // verus!
