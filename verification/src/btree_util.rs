//! The shape of the static B-tree over a run: its leaves are the pages of
//! the run, and its inner nodes lie in a file of their own, level by level
//! from the root, each node one page.

use crate::algorithm::{ascending, rank_below};
use crate::btree_info::{node_fanout, spec_fanout, ROOT_PAGE_OFFSET};
use crate::algorithm::strictly_ascending;
use crate::direct_io::page_of;
use crate::file_interface::Storage;
use crate::filename;
use crate::serde_entry::entries_from_bytes;
use crate::sst_util::run_file;
use crate::serde_btree::{self, kept_keys, node_bytes};
use crate::sst_util::{ceil_div, get_btree_page, lemma_ceil_div, num_pages, spec_num_pages};
use crate::system_info::{entries_per_page, spec_entries_per_page, valid_page_size};
use crate::types::{Depth, Entry, Key, Level, Node, Page, Run, Size, StoreError};
use vstd::arithmetic::power::{lemma_pow_positive, pow};
use vstd::prelude::*;

verus! {

/// Number of levels of inner nodes over `leaves` leaves: the least number
/// of times that `leaves` must be divided by `fanout`, rounding up, to
/// reach 1.
pub open spec fn depth_for(leaves: int, fanout: int) -> int
    decreases leaves,
    when leaves >= 0
    via depth_for_decreases
{
    if leaves <= 1 || fanout < 2 {
        0
    } else {
        1 + depth_for(ceil_div(leaves, fanout), fanout)
    }
}

#[via_fn]
proof fn depth_for_decreases(leaves: int, fanout: int) {
    if leaves > 1 && fanout >= 2 {
        lemma_ceil_div(leaves, fanout);
    }
}

pub open spec fn spec_num_leaves(num_entries: Size, page_size: usize) -> int {
    spec_num_pages(num_entries, page_size)
}

pub open spec fn spec_tree_depth(num_entries: Size, page_size: usize) -> int {
    depth_for(spec_num_leaves(num_entries, page_size), spec_fanout(page_size) as int)
}

pub open spec fn spec_leaves_in_subtree(depth: Depth, num_entries: Size, page_size: usize) -> int {
    pow(
        spec_fanout(page_size) as int,
        (spec_tree_depth(num_entries, page_size) - depth) as nat,
    )
}

pub open spec fn spec_num_nodes(depth: Depth, num_entries: Size, page_size: usize) -> int {
    ceil_div(
        spec_num_leaves(num_entries, page_size),
        spec_leaves_in_subtree(depth, num_entries, page_size),
    )
}

pub open spec fn spec_depth_page_index(depth: Depth, num_entries: Size, page_size: usize) -> int
    decreases depth,
{
    if depth == 0 {
        0
    } else {
        spec_depth_page_index((depth - 1) as usize, num_entries, page_size) + spec_num_nodes(
            (depth - 1) as usize,
            num_entries,
            page_size,
        )
    }
}

/// The last element of each chunk of `chunk_size` elements.
pub open spec fn last_in_chunks(elements: Seq<Key>, chunk_size: int) -> Seq<Key> {
    Seq::new(
        ceil_div(elements.len() as int, chunk_size) as nat,
        |i: int|
            elements[(if (i + 1) * chunk_size < elements.len() {
                (i + 1) * chunk_size
            } else {
                elements.len() as int
            }) - 1],
    )
}

/// The keys of `entries`, in their order.
pub open spec fn keys_of(entries: Seq<Entry>) -> Seq<Key> {
    Seq::new(entries.len(), |i: int| entries[i].0)
}

/// At most the first `count` elements.
pub open spec fn first_of(keys: Seq<Key>, count: int) -> Seq<Key> {
    if count < keys.len() {
        keys.take(count)
    } else {
        keys
    }
}

/// The pages of the nodes of one level, whose children have the
/// delimiters `delimiters`: every `fanout` delimiters make a node, which
/// holds all of them but the last.
pub open spec fn nodes_image(delimiters: Seq<Key>, fanout: int, page_size: usize) -> Seq<u8>
    decreases delimiters.len(),
{
    if delimiters.len() == 0 || fanout < 1 {
        Seq::empty()
    } else {
        node_bytes(delimiters.take(kept_keys(delimiters.len() as int, fanout)), page_size)
            + nodes_image(
            delimiters.skip(first_of(delimiters, fanout).len() as int),
            fanout,
            page_size,
        )
    }
}

/// The index file over children with the delimiters `delimiters`: the
/// levels from the root down, the level of these children's parents last.
/// The delimiters of a level are the last delimiters of the nodes below.
pub open spec fn index_image(delimiters: Seq<Key>, fanout: int, page_size: usize) -> Seq<u8>
    decreases delimiters.len(),
    when fanout >= 2
    via index_image_decreases
{
    if delimiters.len() <= 1 {
        Seq::empty()
    } else {
        index_image(last_in_chunks(delimiters, fanout), fanout, page_size) + nodes_image(
            delimiters,
            fanout,
            page_size,
        )
    }
}

#[via_fn]
proof fn index_image_decreases(delimiters: Seq<Key>, fanout: int, page_size: usize) {
    if delimiters.len() > 1 {
        lemma_ceil_div(delimiters.len() as int, fanout);
    }
}

/// The index file of a run with these entries, for pages of `page_size`
/// bytes: the delimiter of a page of the run is its last key.
pub open spec fn run_index(entries: Seq<Entry>, page_size: usize) -> Seq<u8> {
    index_image(
        last_in_chunks(keys_of(entries), spec_entries_per_page(page_size) as int),
        spec_fanout(page_size) as int,
        page_size,
    )
}

/// The delimiters `height` levels above `delimiters`: the delimiters of a
/// level are the last delimiters of the nodes below.
pub open spec fn level_keys(delimiters: Seq<Key>, fanout: int, height: nat) -> Seq<Key>
    decreases height,
{
    if height == 0 {
        delimiters
    } else {
        last_in_chunks(level_keys(delimiters, fanout, (height - 1) as nat), fanout)
    }
}

/// The keys of node `node` of the level whose children have the
/// delimiters `delimiters`.
pub open spec fn node_of(delimiters: Seq<Key>, fanout: int, node: int) -> Seq<Key> {
    delimiters.subrange(
        node * fanout,
        node * fanout + kept_keys(delimiters.len() - node * fanout, fanout),
    )
}

/// `child` is the first of the children with these delimiters whose
/// delimiter is not below `key`, or the last child where there is none.
pub open spec fn leads_to(delimiters: Seq<Key>, key: Key, child: int) -> bool {
    &&& 0 <= child < delimiters.len()
    &&& forall|i: int| 0 <= i < child ==> delimiters[i] < key
    &&& forall|i: int| child <= i < delimiters.len() - 1 ==> delimiters[i] >= key
}

/// Rounding up twice is rounding up once.
pub proof fn lemma_ceil_div_twice(a: int, b: int, c: int)
    requires
        a >= 0,
        b >= 1,
        c >= 1,
    ensures
        ceil_div(ceil_div(a, b), c) == ceil_div(a, b * c),
{
    let q = ceil_div(a, b);
    lemma_ceil_div(a, b);
    lemma_ceil_div(q, c);
    assert(b * c >= 1) by (nonlinear_arith)
        requires
            b >= 1,
            c >= 1,
    ;
    lemma_ceil_div(a, b * c);
    let r = ceil_div(q, c);
    let s = ceil_div(a, b * c);
    if a > 0 {
        assert(q * b <= (r * c) * b) by (nonlinear_arith)
            requires
                q <= r * c,
                b >= 1,
        ;
        assert(s <= r) by (nonlinear_arith)
            requires
                (s - 1) * (b * c) < a,
                a <= (r * c) * b,
                b * c >= 1,
        ;
        assert((r - 1) * c <= q - 1);
        assert(((r - 1) * c) * b <= (q - 1) * b) by (nonlinear_arith)
            requires
                (r - 1) * c <= q - 1,
                b >= 1,
        ;
        assert(r <= s) by (nonlinear_arith)
            requires
                ((r - 1) * c) * b < a,
                a <= s * (b * c),
                b * c >= 1,
        ;
    }
}

/// Where the chunks of a sequence begin and end.
pub proof fn lemma_chunk(len: int, chunk_size: int, i: int)
    requires
        chunk_size >= 1,
        0 <= i < ceil_div(len, chunk_size),
        len >= 0,
    ensures
        0 <= i * chunk_size < len,
        i * chunk_size < (i + 1) * chunk_size,
        i + 1 < ceil_div(len, chunk_size) ==> (i + 1) * chunk_size < len,
        i + 1 == ceil_div(len, chunk_size) ==> (i + 1) * chunk_size >= len,
{
    lemma_ceil_div(len, chunk_size);
    let total = ceil_div(len, chunk_size);
    assert(i * chunk_size <= (total - 1) * chunk_size && 0 <= i * chunk_size && i * chunk_size < (i
        + 1) * chunk_size) by (nonlinear_arith)
        requires
            0 <= i <= total - 1,
            chunk_size >= 1,
    ;
    if i + 1 < total {
        assert((i + 1) * chunk_size <= (total - 1) * chunk_size) by (nonlinear_arith)
            requires
                i + 1 <= total - 1,
                chunk_size >= 1,
        ;
    }
}

/// The last keys of the chunks of ascending keys ascend.
pub proof fn lemma_last_in_chunks_ascending(keys: Seq<Key>, chunk_size: int)
    requires
        chunk_size >= 1,
        ascending(keys),
    ensures
        ascending(last_in_chunks(keys, chunk_size)),
{
    let last = last_in_chunks(keys, chunk_size);
    let len = keys.len() as int;
    assert forall|i: int, j: int| 0 <= i <= j < last.len() implies last[i] <= last[j] by {
        lemma_chunk(len, chunk_size, i);
        lemma_chunk(len, chunk_size, j);
        if i < j {
            assert((i + 1) * chunk_size <= (j + 1) * chunk_size) by (nonlinear_arith)
                requires
                    i < j,
                    chunk_size >= 1,
            ;
        }
    }
}

/// The levels over ascending delimiters ascend.
pub proof fn lemma_level_ascending(delimiters: Seq<Key>, fanout: int, height: nat)
    requires
        fanout >= 1,
        ascending(delimiters),
    ensures
        ascending(level_keys(delimiters, fanout, height)),
    decreases height,
{
    if height > 0 {
        lemma_level_ascending(delimiters, fanout, (height - 1) as nat);
        lemma_last_in_chunks_ascending(level_keys(delimiters, fanout, (height - 1) as nat), fanout);
    }
}

/// How many delimiters a level has.
pub proof fn lemma_level_len(delimiters: Seq<Key>, fanout: int, height: nat)
    requires
        fanout >= 1,
    ensures
        pow(fanout, height) >= 1,
        level_keys(delimiters, fanout, height).len() == ceil_div(
            delimiters.len() as int,
            pow(fanout, height),
        ),
    decreases height,
{
    reveal(pow);
    if height == 0 {
        assert(pow(fanout, 0) == 1);
        lemma_ceil_div(delimiters.len() as int, 1);
    } else {
        let lower = (height - 1) as nat;
        lemma_level_len(delimiters, fanout, lower);
        lemma_ceil_div_twice(delimiters.len() as int, pow(fanout, lower), fanout);
        lemma_ceil_div(delimiters.len() as int, pow(fanout, lower));
        assert(pow(fanout, height) == fanout * pow(fanout, lower));
        assert(pow(fanout, lower) * fanout == fanout * pow(fanout, lower)) by (nonlinear_arith);
        assert(pow(fanout, height) >= 1) by (nonlinear_arith)
            requires
                pow(fanout, height) == fanout * pow(fanout, lower),
                fanout >= 1,
                pow(fanout, lower) >= 1,
        ;
    }
}

/// A tree has inner nodes exactly where it has more than one leaf.
pub proof fn lemma_depth_for(leaves: int, fanout: int)
    requires
        leaves >= 0,
        fanout >= 2,
    ensures
        depth_for(leaves, fanout) >= 0,
        depth_for(leaves, fanout) == 0 <==> leaves <= 1,
    decreases leaves,
{
    if leaves > 1 {
        lemma_ceil_div(leaves, fanout);
        lemma_depth_for(ceil_div(leaves, fanout), fanout);
    }
}

/// Each level is one step nearer to the root than the level below it.
pub proof fn lemma_level_depth(delimiters: Seq<Key>, fanout: int, height: nat)
    requires
        fanout >= 2,
        height <= depth_for(delimiters.len() as int, fanout),
    ensures
        depth_for(level_keys(delimiters, fanout, height).len() as int, fanout) == depth_for(
            delimiters.len() as int,
            fanout,
        ) - height,
        height < depth_for(delimiters.len() as int, fanout) ==> level_keys(
            delimiters,
            fanout,
            height,
        ).len() > 1,
    decreases height,
{
    if height > 0 {
        lemma_level_depth(delimiters, fanout, (height - 1) as nat);
    }
}

/// The nodes of a level fill one page each.
pub proof fn lemma_nodes_image_len(delimiters: Seq<Key>, fanout: int, page_size: usize)
    requires
        valid_page_size(page_size),
        fanout == spec_fanout(page_size),
    ensures
        nodes_image(delimiters, fanout, page_size).len() == ceil_div(
            delimiters.len() as int,
            fanout,
        ) * page_size,
    decreases delimiters.len(),
{
    let len = delimiters.len() as int;
    lemma_ceil_div(len, fanout);
    if len > 0 {
        let step = first_of(delimiters, fanout).len() as int;
        let rest = delimiters.skip(step);
        let keys = delimiters.take(kept_keys(len, fanout));
        serde_btree::lemma_node_round_trip(keys, page_size);
        lemma_nodes_image_len(rest, fanout, page_size);
        lemma_ceil_div(len - step, fanout);
        if len <= fanout {
            assert(ceil_div(len, fanout) == 1) by (nonlinear_arith)
                requires
                    0 < len <= fanout,
                    ceil_div(len, fanout) * fanout >= len,
                    (ceil_div(len, fanout) - 1) * fanout < len,
            ;
        } else {
            lemma_ceil_div_less(len, fanout);
        }
        let more = ceil_div(len - step, fanout);
        assert(ceil_div(len, fanout) == 1 + more);
        assert((1 + more) * page_size == page_size + more * page_size) by (nonlinear_arith);
        assert(node_bytes(keys, page_size).len() == page_size);
        assert(nodes_image(delimiters, fanout, page_size) == node_bytes(keys, page_size)
            + nodes_image(rest, fanout, page_size));
    } else {
        assert(0 * page_size == 0) by (nonlinear_arith);
    }
}

/// A sequence that is one chunk longer has one chunk more.
pub proof fn lemma_ceil_div_less(a: int, b: int)
    requires
        a >= b,
        b >= 1,
    ensures
        ceil_div(a - b, b) == ceil_div(a, b) - 1,
{
    assert((a - b + b - 1) / b == (a + b - 1) / b - 1) by (nonlinear_arith)
        requires
            a >= b,
            b >= 1,
    ;
}

/// Page `node` of the nodes of a level holds the keys of node `node`.
pub proof fn lemma_nodes_image_page(delimiters: Seq<Key>, fanout: int, page_size: usize, node: int)
    requires
        valid_page_size(page_size),
        fanout == spec_fanout(page_size),
        0 <= node < ceil_div(delimiters.len() as int, fanout),
    ensures
        (node + 1) * page_size <= nodes_image(delimiters, fanout, page_size).len(),
        nodes_image(delimiters, fanout, page_size).subrange(
            node * page_size,
            (node + 1) * page_size,
        ) == node_bytes(node_of(delimiters, fanout, node), page_size),
        node_of(delimiters, fanout, node).len() <= fanout - 1,
        0 <= node * fanout,
        node * fanout + node_of(delimiters, fanout, node).len() < delimiters.len(),
    decreases node,
{
    let len = delimiters.len() as int;
    let image = nodes_image(delimiters, fanout, page_size);
    lemma_ceil_div(len, fanout);
    lemma_nodes_image_len(delimiters, fanout, page_size);
    lemma_chunk(len, fanout, node);
    assert((node + 1) * page_size <= ceil_div(len, fanout) * page_size) by (nonlinear_arith)
        requires
            node + 1 <= ceil_div(len, fanout),
            page_size >= 1,
    ;
    let step = first_of(delimiters, fanout).len() as int;
    let rest = delimiters.skip(step);
    let keys = delimiters.take(kept_keys(len, fanout));
    serde_btree::lemma_node_round_trip(keys, page_size);
    assert(nodes_image(delimiters, fanout, page_size) == node_bytes(keys, page_size) + nodes_image(
        rest,
        fanout,
        page_size,
    ));
    if node == 0 {
        assert(0 * fanout == 0 && 0 * page_size == 0 && (0 + 1) * page_size == page_size)
            by (nonlinear_arith);
        assert(node_of(delimiters, fanout, 0) =~= keys);
        assert(image.subrange(0, page_size as int) =~= node_bytes(keys, page_size));
    } else {
        assert(len > fanout) by (nonlinear_arith)
            requires
                node >= 1,
                node * fanout < len,
                fanout >= 1,
        ;
        lemma_ceil_div_less(len, fanout);
        lemma_nodes_image_page(rest, fanout, page_size, node - 1);
        assert((node - 1) * fanout == node * fanout - fanout) by (nonlinear_arith);
        assert((node - 1) * page_size == node * page_size - page_size && (node + 1) * page_size
            == node * page_size + page_size && node * page_size >= page_size) by (nonlinear_arith)
            requires
                node >= 1,
                page_size >= 1,
        ;
        assert(node_of(rest, fanout, node - 1) =~= node_of(delimiters, fanout, node));
        assert(image.subrange(node * page_size, (node + 1) * page_size) =~= nodes_image(
            rest,
            fanout,
            page_size,
        ).subrange((node - 1) * page_size, node * page_size));
    }
}

/// The index file begins with the levels above any of its levels.
pub proof fn lemma_index_prefix(delimiters: Seq<Key>, fanout: int, page_size: usize, height: nat)
    requires
        fanout >= 2,
        height <= depth_for(delimiters.len() as int, fanout),
    ensures
        ({
            let whole = index_image(delimiters, fanout, page_size);
            let above = index_image(level_keys(delimiters, fanout, height), fanout, page_size);
            above.len() <= whole.len() && whole.subrange(0, above.len() as int) == above
        }),
    decreases height,
{
    let whole = index_image(delimiters, fanout, page_size);
    if height == 0 {
        assert(whole.subrange(0, whole.len() as int) =~= whole);
    } else {
        let lower = (height - 1) as nat;
        let below = level_keys(delimiters, fanout, lower);
        lemma_index_prefix(delimiters, fanout, page_size, lower);
        lemma_level_depth(delimiters, fanout, lower);
        let above = index_image(level_keys(delimiters, fanout, height), fanout, page_size);
        assert(index_image(below, fanout, page_size) == above + nodes_image(
            below,
            fanout,
            page_size,
        ));
        assert(whole.subrange(0, above.len() as int) =~= above) by {
            let middle = index_image(below, fanout, page_size);
            assert(whole.subrange(0, middle.len() as int) == middle);
            assert forall|i: int| 0 <= i < above.len() implies whole[i] == above[i] by {
                assert(whole.subrange(0, middle.len() as int)[i] == middle[i]);
            }
        }
    }
}

/// One step of the walk: from the child that the delimiters of a level
/// lead to, the keys of that child lead to the child of the level below.
pub proof fn lemma_descend(below: Seq<Key>, fanout: int, key: Key, node: int, rank: int)
    requires
        fanout >= 2,
        ascending(below),
        leads_to(last_in_chunks(below, fanout), key, node),
        rank_below(node_of(below, fanout, node), key, rank),
    ensures
        leads_to(below, key, node * fanout + rank),
{
    let above = last_in_chunks(below, fanout);
    let len = below.len() as int;
    let keys = node_of(below, fanout, node);
    let start = node * fanout;
    let child = start + rank;
    lemma_ceil_div(len, fanout);
    lemma_chunk(len, fanout, node);
    let kept = kept_keys(len - start, fanout);
    assert(keys.len() == kept);
    assert forall|i: int| 0 <= i < child implies below[i] < key by {
        if i < start {
            lemma_chunk(len, fanout, node - 1);
            assert((node - 1 + 1) * fanout == start);
            assert(above[node - 1] == below[start - 1]);
            assert(below[i] <= below[start - 1]);
        } else {
            assert(keys[i - start] == below[i]);
        }
    }
    assert forall|i: int| child <= i < len - 1 implies below[i] >= key by {
        if rank < kept {
            assert(keys[rank] == below[child]);
            assert(below[child] <= below[i]);
        } else {
            if node < above.len() - 1 {
                assert((node + 1) * fanout == start + fanout) by (nonlinear_arith)
                    requires
                        start == node * fanout,
                ;
                assert(above[node] == below[start + fanout - 1]);
                assert(above[node] >= key);
                assert(below[child] <= below[i]);
            } else {
                assert((node + 1) * fanout == start + fanout) by (nonlinear_arith)
                    requires
                        start == node * fanout,
                ;
            }
        }
    }
}

/// `a` divided by `b`, rounded up.
pub fn div_ceil(a: usize, b: usize) -> (c: usize)
    requires
        b >= 1,
    ensures
        c == ceil_div(a as int, b as int),
        c * b >= a,
        a > 0 ==> (c - 1) * b < a && c >= 1,
        a == 0 ==> c == 0,
        c <= a,
        b >= 2 && a >= 2 ==> c < a,
{
    proof {
        lemma_ceil_div(a as int, b as int);
    }
    if a % b == 0 {
        a / b
    } else {
        a / b + 1
    }
}

/// `base` to the power of `exponent`, where it fits the machine's
/// integers.
pub fn power(base: usize, exponent: usize) -> (result: Option<usize>)
    requires
        base >= 1,
    ensures
        match result {
            Some(p) => p == pow(base as int, exponent as nat) && p >= 1,
            None => pow(base as int, exponent as nat) > usize::MAX,
        },
{
    let mut result: usize = 1;
    let mut done: usize = 0;
    proof {
        vstd::arithmetic::power::lemma_pow0(base as int);
    }
    while done < exponent
        invariant
            base >= 1,
            0 <= done <= exponent,
            result == pow(base as int, done as nat),
            result >= 1,
        decreases exponent - done,
    {
        let ghost before = result as int;
        proof {
            reveal(pow);
            assert(pow(base as int, (done + 1) as nat) == base * pow(base as int, done as nat));
        }
        match result.checked_mul(base) {
            Some(next) => {
                assert(next == base * before) by (nonlinear_arith)
                    requires
                        next == before * base,
                ;
                assert(next >= 1) by (nonlinear_arith)
                    requires
                        next == base * before,
                        base >= 1,
                        before >= 1,
                ;
                result = next;
            },
            None => {
                proof {
                    let b = base as nat;
                    assert(pow(base as int, (done + 1) as nat) > usize::MAX) by (nonlinear_arith)
                        requires
                            pow(base as int, (done + 1) as nat) == base * before,
                            before * base > usize::MAX,
                    ;
                    if done + 1 < exponent {
                        vstd::arithmetic::power::lemma_pow_increases(
                            b,
                            (done + 1) as nat,
                            exponent as nat,
                        );
                    }
                }
                return None;
            },
        }
        done += 1;
    }
    Some(result)
}

/// Whether a run of `num_entries` entries has inner nodes, and with them
/// an index file: whether it is longer than a page. A run of one page is
/// its own root.
pub fn has_inner_nodes(num_entries: Size, page_size: usize) -> (inner_nodes: bool)
    ensures
        inner_nodes == (num_entries > spec_entries_per_page(page_size)),
{
    num_entries > entries_per_page(page_size)
}

/// Number of leaves of the tree over `num_entries` entries: the pages of
/// the run.
pub fn num_leaves(num_entries: Size, page_size: usize) -> (leaves: Size)
    requires
        valid_page_size(page_size),
    ensures
        leaves == spec_num_leaves(num_entries, page_size),
{
    num_pages(num_entries, page_size)
}

/// Depth of the tree: the number of levels of inner nodes.
pub fn tree_depth(num_entries: Size, page_size: usize) -> (depth: Size)
    requires
        valid_page_size(page_size),
    ensures
        depth == spec_tree_depth(num_entries, page_size),
        depth <= spec_num_leaves(num_entries, page_size),
{
    let fanout: usize = node_fanout(page_size);
    let mut leaves: usize = num_leaves(num_entries, page_size);
    let mut depth: usize = 0;
    let ghost total = leaves as int;
    while leaves > 1
        invariant
            fanout == spec_fanout(page_size),
            fanout >= 2,
            0 <= leaves,
            depth + depth_for(leaves as int, fanout as int) == depth_for(total, fanout as int),
            depth + leaves <= total || depth == 0,
            total <= usize::MAX,
            leaves <= total,
        decreases leaves,
    {
        proof {
            lemma_ceil_div(leaves as int, fanout as int);
        }
        leaves = div_ceil(leaves, fanout);
        depth += 1;
    }
    depth
}

/// Number of levels of inner nodes from depth `depth` down to the leaves.
pub fn subtree_height(depth: Depth, num_entries: Size, page_size: usize) -> (height: Size)
    requires
        valid_page_size(page_size),
        depth <= spec_tree_depth(num_entries, page_size),
    ensures
        height == spec_tree_depth(num_entries, page_size) - depth,
{
    tree_depth(num_entries, page_size) - depth
}

/// Number of nodes at depth `depth`.
pub fn num_nodes(depth: Depth, num_entries: Size, page_size: usize) -> (nodes: Size)
    requires
        valid_page_size(page_size),
        depth <= spec_tree_depth(num_entries, page_size),
    ensures
        nodes == spec_num_nodes(depth, num_entries, page_size),
        nodes <= spec_num_leaves(num_entries, page_size),
{
    let leaves: usize = num_leaves(num_entries, page_size);
    let fanout: usize = node_fanout(page_size);
    match power(fanout, subtree_height(depth, num_entries, page_size)) {
        Some(span) => div_ceil(leaves, span),
        None => {
            proof {
                let span = spec_leaves_in_subtree(depth, num_entries, page_size);
                assert(span > leaves);
                if leaves > 0 {
                    assert((leaves + span - 1) / span == 1) by (nonlinear_arith)
                        requires
                            0 < leaves < span,
                    ;
                } else {
                    assert((leaves + span - 1) / span == 0) by (nonlinear_arith)
                        requires
                            leaves == 0,
                            span > 0,
                    ;
                }
            }
            if leaves > 0 {
                1
            } else {
                0
            }
        },
    }
}

/// Number of leaves under one node at depth `depth`.
pub fn leaves_in_subtree(depth: Depth, num_entries: Size, page_size: usize) -> (leaves: Size)
    requires
        valid_page_size(page_size),
        depth <= spec_tree_depth(num_entries, page_size),
        spec_leaves_in_subtree(depth, num_entries, page_size) <= usize::MAX,
    ensures
        leaves == spec_leaves_in_subtree(depth, num_entries, page_size),
{
    let fanout: usize = node_fanout(page_size);
    match power(fanout, subtree_height(depth, num_entries, page_size)) {
        Some(span) => span,
        None => 0,
    }
}

/// Page of the index file that holds the first node of depth `depth`.
pub fn depth_page_index(depth: Depth, num_entries: Size, page_size: usize) -> (page: Page)
    requires
        valid_page_size(page_size),
        depth <= spec_tree_depth(num_entries, page_size) + 1,
        spec_depth_page_index(depth, num_entries, page_size) <= usize::MAX,
    ensures
        page == spec_depth_page_index(depth, num_entries, page_size),
{
    let mut page: usize = ROOT_PAGE_OFFSET;
    let mut d: usize = 0;
    while d < depth
        invariant
            valid_page_size(page_size),
            0 <= d <= depth,
            depth <= spec_tree_depth(num_entries, page_size) + 1,
            page == spec_depth_page_index(d, num_entries, page_size),
            spec_depth_page_index(depth, num_entries, page_size) <= usize::MAX,
        decreases depth - d,
    {
        let nodes: usize = num_nodes(d, num_entries, page_size);
        proof {
            lemma_depth_page_index_grows(d + 1, depth as int, num_entries, page_size);
        }
        page = page + nodes;
        d += 1;
    }
    page
}

/// The first page of a level is not before that of a level above.
pub proof fn lemma_depth_page_index_grows(upper: int, lower: int, num_entries: Size, page_size: usize)
    requires
        valid_page_size(page_size),
        0 <= upper <= lower <= usize::MAX,
    ensures
        0 <= spec_depth_page_index(upper as usize, num_entries, page_size)
            <= spec_depth_page_index(lower as usize, num_entries, page_size),
    decreases lower,
{
    if lower > 0 {
        lemma_nodes_nonnegative((lower - 1) as usize, num_entries, page_size);
        if upper < lower {
            lemma_depth_page_index_grows(upper, lower - 1, num_entries, page_size);
        } else {
            lemma_depth_page_index_grows(0, lower - 1, num_entries, page_size);
        }
    }
}

proof fn lemma_nodes_nonnegative(depth: Depth, num_entries: Size, page_size: usize)
    requires
        valid_page_size(page_size),
    ensures
        spec_num_nodes(depth, num_entries, page_size) >= 0,
{
    let span = spec_leaves_in_subtree(depth, num_entries, page_size);
    let leaves = spec_num_leaves(num_entries, page_size);
    let fanout = spec_fanout(page_size) as int;
    let per_page = spec_entries_per_page(page_size) as int;
    lemma_pow_positive(fanout, (spec_tree_depth(num_entries, page_size) - depth) as nat);
    lemma_ceil_div(num_entries as int, per_page);
    lemma_ceil_div(leaves, span);
}

/// Page of the index file that holds node `node` of depth `depth`.
pub fn node_page_index(depth: Depth, node: Node, num_entries: Size, page_size: usize) -> (page: Page)
    requires
        valid_page_size(page_size),
        depth <= spec_tree_depth(num_entries, page_size) + 1,
        spec_depth_page_index(depth, num_entries, page_size) + node <= usize::MAX,
    ensures
        page == spec_depth_page_index(depth, num_entries, page_size) + node,
{
    depth_page_index(depth, num_entries, page_size) + node
}

/// Position in the index file of the first byte of node `node` of depth
/// `depth`.
pub fn node_byte_index(depth: Depth, node: Node, num_entries: Size, page_size: usize) -> (offset: u64)
    requires
        valid_page_size(page_size),
        depth <= spec_tree_depth(num_entries, page_size) + 1,
        (spec_depth_page_index(depth, num_entries, page_size) + node) * page_size <= usize::MAX,
    ensures
        offset == (spec_depth_page_index(depth, num_entries, page_size) + node) * page_size,
{
    proof {
        lemma_depth_page_index_grows(0, depth as int, num_entries, page_size);
        assert(spec_depth_page_index(depth, num_entries, page_size) + node <= (
        spec_depth_page_index(depth, num_entries, page_size) + node) * page_size)
            by (nonlinear_arith)
            requires
                spec_depth_page_index(depth, num_entries, page_size) + node >= 0,
                page_size >= 1,
        ;
    }
    (node_page_index(depth, node, num_entries, page_size) * page_size) as u64
}

/// The last element of every chunk of `chunk_size` elements: of sorted
/// keys these are the largest of each chunk.
pub fn get_last_in_each_chunk(elements: &[Key], chunk_size: usize) -> (last: Vec<Key>)
    requires
        chunk_size > 0,
    ensures
        last@ == last_in_chunks(elements@, chunk_size as int),
{
    let mut last: Vec<Key> = Vec::new();
    let len: usize = elements.len();
    let mut start: usize = 0;
    let ghost total = ceil_div(len as int, chunk_size as int);
    proof {
        lemma_ceil_div(len as int, chunk_size as int);
        assert(0 * chunk_size == 0) by (nonlinear_arith);
    }
    while start < len
        invariant
            chunk_size > 0,
            len == elements@.len(),
            total == ceil_div(len as int, chunk_size as int),
            total * chunk_size >= len,
            len > 0 ==> (total - 1) * chunk_size < len,
            len == 0 ==> total == 0,
            0 <= start <= len,
            start < len ==> start == last@.len() * chunk_size,
            start == len ==> last@.len() == total,
            forall|i: int| 0 <= i < last@.len() ==> #[trigger] last@[i] == last_in_chunks(
                elements@,
                chunk_size as int,
            )[i],
        decreases len - start,
    {
        let ghost c = chunk_size as int;
        let ghost i = last@.len() as int;
        let end: usize = if len - start > chunk_size {
            start + chunk_size
        } else {
            len
        };
        proof {
            assert((i + 1) * c == start + c) by (nonlinear_arith)
                requires
                    start == i * c,
            ;
            if end < len {
                assert(i + 1 < total) by (nonlinear_arith)
                    requires
                        (i + 1) * c < len,
                        total * c >= len,
                        c >= 1,
                ;
            } else {
                assert(i + 1 == total) by (nonlinear_arith)
                    requires
                        i * c < len,
                        len <= (i + 1) * c,
                        total * c >= len,
                        (total - 1) * c < len,
                        c >= 1,
                ;
            }
            assert(last_in_chunks(elements@, c)[i] == elements@[end - 1]);
        }
        last.push(elements[end - 1]);
        start = end;
    }
    assert(last@ =~= last_in_chunks(elements@, chunk_size as int));
    last
}

/// Number of keys of a node page that are below `value`, found by binary
/// search over the keys that the page holds; `None` for a page that is no
/// node.
fn rank_in_node(page: &Vec<u8>, page_size: usize, value: Key) -> (rank: Option<usize>)
    requires
        valid_page_size(page_size),
    ensures
        rank is Some <==> serde_btree::node_page_ok(page@, page_size),
        rank is Some ==> rank.unwrap() < spec_fanout(page_size) && ({
            let keys = serde_btree::node_keys(page@, serde_btree::node_count(page@) as int);
            ascending(keys) ==> rank_below(keys, value, rank.unwrap() as int)
        }),
{
    if page.len() != page_size {
        return None;
    }
    let count: usize = match serde_btree::deserialize_node_metadata(page.as_slice()) {
        Ok(count) => count,
        Err(_) => {
            return None;
        },
    };
    if count > node_fanout(page_size) - 1 {
        return None;
    }
    let ghost keys = serde_btree::node_keys(page@, count as int);
    let mut left: usize = 0;
    let mut right: usize = count;
    while left < right
        invariant
            0 <= left <= right <= count,
            count < spec_fanout(page_size),
            valid_page_size(page_size),
            page@.len() == page_size,
            keys == serde_btree::node_keys(page@, count as int),
            ascending(keys) ==> forall|i: int| 0 <= i < left ==> keys[i] < value,
            ascending(keys) ==> forall|i: int| right <= i < count ==> keys[i] >= value,
        decreases right - left,
    {
        let middle: usize = left + (right - left) / 2;
        let window = vstd::slice::slice_subrange(page.as_slice(), middle * 8, middle * 8 + 8);
        let middle_key: Key = match serde_btree::deserialize_element(window) {
            Ok(key) => key,
            Err(_) => {
                return None;
            },
        };
        assert(middle_key == keys[middle as int]);
        if middle_key < value {
            left = middle + 1;
        } else {
            right = middle;
        }
    }
    Some(left)
}

/// The delimiters of the pages of a run: the last key of each page.
pub open spec fn run_delimiters(
    files: Map<Seq<char>, Seq<u8>>,
    db_name: Seq<char>,
    level: Level,
    run: Run,
    page_size: usize,
) -> Seq<Key> {
    last_in_chunks(
        keys_of(entries_from_bytes(files[filename::spec_sst_path(db_name, level, run)])),
        spec_entries_per_page(page_size) as int,
    )
}

/// A run of `num_entries` entries, at least one, which has the index file
/// of its entries beside it if it is longer than a page.
pub open spec fn indexed_run(
    files: Map<Seq<char>, Seq<u8>>,
    db_name: Seq<char>,
    level: Level,
    run: Run,
    num_entries: Size,
    page_size: usize,
) -> bool {
    let run_path = filename::spec_sst_path(db_name, level, run);
    let index_path = filename::spec_sst_btree_path(db_name, level, run);
    &&& num_entries >= 1
    &&& files.contains_key(run_path)
    &&& run_file(files[run_path], num_entries as int)
    &&& num_entries > spec_entries_per_page(page_size) ==> files.contains_key(index_path)
        && files[index_path] == run_index(entries_from_bytes(files[run_path]), page_size)
}

/// The last keys of the pages of a run in strictly ascending order ascend,
/// and there is one for each page.
pub proof fn lemma_run_delimiters(entries: Seq<Entry>, page_size: usize)
    requires
        valid_page_size(page_size),
        strictly_ascending(entries),
        entries.len() <= usize::MAX,
    ensures
        ascending(last_in_chunks(keys_of(entries), spec_entries_per_page(page_size) as int)),
        last_in_chunks(keys_of(entries), spec_entries_per_page(page_size) as int).len()
            == spec_num_leaves(entries.len() as usize, page_size),
{
    let keys = keys_of(entries);
    assert forall|i: int, j: int| 0 <= i <= j < keys.len() implies keys[i] <= keys[j] by {
        if i < j {
            assert(entries[i].0 < entries[j].0);
        }
    }
    lemma_last_in_chunks_ascending(keys, spec_entries_per_page(page_size) as int);
}

/// The page that the delimiters of a run lead to for a key holds the
/// key, if the run holds it at all.
pub proof fn lemma_leaf_holds_key(entries: Seq<Entry>, per_page: int, key: Key, page: int, index: int)
    requires
        per_page >= 1,
        strictly_ascending(entries),
        leads_to(last_in_chunks(keys_of(entries), per_page), key, page),
        0 <= index < entries.len(),
        entries[index].0 == key,
    ensures
        page * per_page <= index < (page + 1) * per_page,
{
    let keys = keys_of(entries);
    let delimiters = last_in_chunks(keys, per_page);
    let len = entries.len() as int;
    lemma_chunk(len, per_page, page);
    if page > 0 {
        lemma_chunk(len, per_page, page - 1);
        assert((page - 1 + 1) * per_page == page * per_page);
        let before = page * per_page - 1;
        assert(delimiters[page - 1] == keys[before]);
        assert(keys[before] == entries[before].0);
        assert(delimiters[page - 1] < key);
        if index < before {
            assert(entries[index].0 < entries[before].0);
        }
        assert(index > before);
    } else {
        assert(page * per_page == 0) by (nonlinear_arith)
            requires
                page == 0,
        ;
    }
    assert(page * per_page <= index);
    if page < delimiters.len() - 1 {
        let end = (page + 1) * per_page - 1;
        assert(delimiters[page] == keys[end]);
        assert(keys[end] == entries[end].0);
        assert(delimiters[page] >= key);
        if index > end {
            assert(entries[end].0 < entries[index].0);
        }
    } else {
        assert(page + 1 == ceil_div(len, per_page));
    }
    assert(index < (page + 1) * per_page);
}

/// Walks the inner nodes from the root towards `key` and returns the page
/// of the run that the walk ends at. In every node the walk takes the
/// first child whose delimiter is not below `key`, or the last child; child
/// `i` of node `p` is node `p * fanout + i` of the next level. Over the
/// index of a run the walk ends at the first page whose last key is not
/// below `key`, or at the last page. Fails where the index cannot be read
/// or leads past the last page of the run.
pub fn btree_navigate(
    storage: &mut Storage,
    db_name: &str,
    level: Level,
    run: Run,
    key: Key,
    num_entries: Size,
) -> (page: Result<Page, StoreError>)
    requires
        old(storage).wf(),
    ensures
        final(storage).wf(),
        final(storage).files() == old(storage).files(),
        final(storage).spec_page_size() == old(storage).spec_page_size(),
        final(storage).spec_use_pool() == old(storage).spec_use_pool(),
        final(storage).pool_capacity() == old(storage).pool_capacity(),
        page is Ok ==> 0 <= page.unwrap() < spec_num_leaves(
            num_entries,
            old(storage).spec_page_size(),
        ),
        indexed_run(
            old(storage).files(),
            db_name@,
            level,
            run,
            num_entries,
            old(storage).spec_page_size(),
        ) ==> page is Ok && leads_to(
            run_delimiters(old(storage).files(), db_name@, level, run, old(storage).spec_page_size()),
            key,
            page.unwrap() as int,
        ),
{
    proof {
        storage.lemma_page_size();
    }
    let page_size: usize = storage.page_size();
    let fanout: usize = node_fanout(page_size);
    let num_inner_levels: usize = tree_depth(num_entries, page_size);
    let leaves: usize = num_leaves(num_entries, page_size);
    let ghost files = storage.files();
    let ghost sound = indexed_run(files, db_name@, level, run, num_entries, page_size);
    let ghost delimiters = run_delimiters(files, db_name@, level, run, page_size);
    let ghost index_path = filename::spec_sst_btree_path(db_name@, level, run);
    let ghost whole = files[index_path];
    let ghost f = fanout as int;
    proof {
        if sound {
            let entries = entries_from_bytes(files[filename::spec_sst_path(db_name@, level, run)]);
            let per_page = spec_entries_per_page(page_size) as int;
            assert(entries.len() == num_entries);
            lemma_run_delimiters(entries, page_size);
            lemma_ceil_div(num_entries as int, per_page);
            assert(delimiters.len() >= 1);
            lemma_depth_for(delimiters.len() as int, f);
            lemma_level_depth(delimiters, f, num_inner_levels as nat);
            let top = level_keys(delimiters, f, num_inner_levels as nat);
            lemma_depth_for(top.len() as int, f);
            lemma_level_len(delimiters, f, num_inner_levels as nat);
            lemma_ceil_div(delimiters.len() as int, pow(f, num_inner_levels as nat));
            assert(top.len() == 1);
            assert(index_image(top, f, page_size).len() == 0);
            assert(0 * page_size == 0) by (nonlinear_arith);
            if num_inner_levels > 0 {
                assert(delimiters.len() > 1);
                assert(num_entries > per_page) by (nonlinear_arith)
                    requires
                        (delimiters.len() - 1) * per_page < num_entries,
                        delimiters.len() >= 2,
                        per_page >= 1,
                ;
                storage.lemma_file_fits(index_path);
            }
        }
    }
    let mut next_node: Node = 0;
    let mut first_page: Page = ROOT_PAGE_OFFSET;
    let mut depth: usize = 0;
    while depth < num_inner_levels
        invariant
            storage.wf(),
            storage.files() == old(storage).files(),
            storage.spec_page_size() == old(storage).spec_page_size(),
            storage.spec_page_size() == page_size,
            storage.spec_use_pool() == old(storage).spec_use_pool(),
            storage.pool_capacity() == old(storage).pool_capacity(),
            valid_page_size(page_size),
            fanout == spec_fanout(page_size),
            f == fanout,
            num_inner_levels == spec_tree_depth(num_entries, page_size),
            0 <= depth <= num_inner_levels,
            files == old(storage).files(),
            index_path == filename::spec_sst_btree_path(db_name@, level, run),
            whole == files[index_path],
            sound == indexed_run(files, db_name@, level, run, num_entries, page_size),
            delimiters == run_delimiters(files, db_name@, level, run, page_size),
            leaves == spec_num_leaves(num_entries, page_size),
            sound ==> {
                &&& delimiters.len() == spec_num_leaves(num_entries, page_size)
                &&& ascending(delimiters)
                &&& num_inner_levels == depth_for(delimiters.len() as int, f)
                &&& num_inner_levels > 0 ==> files.contains_key(index_path) && whole == index_image(
                    delimiters,
                    f,
                    page_size,
                ) && whole.len() <= usize::MAX
                &&& leads_to(
                    level_keys(delimiters, f, (num_inner_levels - depth) as nat),
                    key,
                    next_node as int,
                )
                &&& first_page * page_size == index_image(
                    level_keys(delimiters, f, (num_inner_levels - depth) as nat),
                    f,
                    page_size,
                ).len()
            },
        decreases num_inner_levels - depth,
    {
        let ghost height = (num_inner_levels - depth) as nat;
        let ghost lower = (height - 1) as nat;
        let ghost above = level_keys(delimiters, f, height);
        let ghost below = level_keys(delimiters, f, lower);
        let ghost keys = node_of(below, f, next_node as int);
        proof {
            if sound {
                lemma_level_depth(delimiters, f, lower);
                lemma_level_ascending(delimiters, f, lower);
                lemma_index_prefix(delimiters, f, page_size, lower);
                let middle = index_image(below, f, page_size);
                let top_image = index_image(above, f, page_size);
                let nodes = nodes_image(below, f, page_size);
                assert(above == last_in_chunks(below, f));
                assert(below.len() > 1);
                assert(middle == top_image + nodes);
                lemma_ceil_div(below.len() as int, f);
                lemma_nodes_image_len(below, f, page_size);
                assert(above.len() == ceil_div(below.len() as int, f));
                lemma_nodes_image_page(below, f, page_size, next_node as int);
                let base = first_page * page_size;
                let shifted = next_node * page_size;
                assert(top_image.len() == base);
                assert(nodes.len() == above.len() * page_size);
                assert(middle.len() == base + above.len() * page_size);
                assert((next_node + 1) * page_size == shifted + page_size) by (nonlinear_arith)
                    requires
                        shifted == next_node * page_size,
                ;
                assert(shifted + page_size <= nodes.len());
                assert((first_page + next_node) * page_size == base + shifted && (first_page
                    + next_node + 1) * page_size == base + shifted + page_size && (first_page
                    + above.len()) * page_size == base + above.len() * page_size)
                    by (nonlinear_arith)
                    requires
                        base == first_page * page_size,
                        shifted == next_node * page_size,
                ;
                assert(middle.len() <= whole.len());
                assert(first_page + next_node + 1 <= whole.len() && first_page + above.len()
                    <= whole.len()) by (nonlinear_arith)
                    requires
                        (first_page + next_node + 1) * page_size <= whole.len(),
                        (first_page + above.len()) * page_size <= whole.len(),
                        page_size >= 1,
                        first_page + next_node + 1 >= 0,
                        first_page + above.len() >= 0,
                ;
                let from = base + shifted;
                let prefix = whole.subrange(0, middle.len() as int);
                assert(prefix == middle);
                assert(whole.subrange(from, from + page_size) =~= prefix.subrange(
                    from,
                    from + page_size,
                ));
                assert(middle.subrange(from, from + page_size) =~= nodes.subrange(
                    shifted,
                    shifted + page_size,
                ));
                assert(page_of(whole, first_page + next_node, page_size as int) == node_bytes(
                    keys,
                    page_size,
                ));
                serde_btree::lemma_node_round_trip(keys, page_size);
                assert forall|i: int, j: int| 0 <= i <= j < keys.len() implies keys[i] <= keys[j] by {
                    assert(below[next_node * f + i] <= below[next_node * f + j]);
                }
                lemma_level_len(delimiters, f, height);
                assert(spec_num_nodes(depth, num_entries, page_size) == above.len());
            }
        }
        let node_page_index: usize = match first_page.checked_add(next_node) {
            Some(index) => index,
            None => {
                return Err(StoreError::TooLarge);
            },
        };
        let node_page = match get_btree_page(storage, db_name, level, run, node_page_index) {
            Ok(bytes) => bytes,
            Err(e) => {
                return Err(e);
            },
        };
        let rank: usize = match rank_in_node(&node_page, page_size, key) {
            Some(rank) => rank,
            None => {
                return Err(StoreError::Corrupt);
            },
        };
        proof {
            if sound {
                lemma_descend(below, f, key, next_node as int, rank as int);
                assert(next_node * fanout <= next_node * fanout + rank && next_node * fanout >= 0)
                    by (nonlinear_arith)
                    requires
                        next_node >= 0,
                        fanout >= 0,
                        rank >= 0,
                ;
                lemma_level_len(delimiters, f, lower);
                lemma_ceil_div(delimiters.len() as int, pow(f, lower));
            }
        }
        next_node = match next_node.checked_mul(fanout) {
            Some(base) => match base.checked_add(rank) {
                Some(node) => node,
                None => {
                    return Err(StoreError::TooLarge);
                },
            },
            None => {
                return Err(StoreError::TooLarge);
            },
        };
        first_page = match first_page.checked_add(num_nodes(depth, num_entries, page_size)) {
            Some(page) => page,
            None => {
                return Err(StoreError::TooLarge);
            },
        };
        depth += 1;
    }
    if next_node >= leaves {
        return Err(StoreError::Corrupt);
    }
    Ok(next_node)
}

} // verus!
