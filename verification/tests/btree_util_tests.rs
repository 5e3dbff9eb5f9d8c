use lsm_store::btree_info::fanout;
use lsm_store::btree_util::{
    depth_page_index, get_last_in_each_chunk, has_inner_nodes, leaves_in_subtree, node_byte_index,
    node_page_index, num_leaves, num_nodes, subtree_height, tree_depth,
};
use lsm_store::system_info::{num_entries_per_page, page_size};
use lsm_store::types::Key;

#[test]
fn test_num_leaves() {
    let entries_per_page = num_entries_per_page();
    let size = page_size();
    assert_eq!(num_leaves(0, size), 0);
    assert_eq!(num_leaves(1, size), 1);

    assert_eq!(num_leaves(entries_per_page, size), 1);
    assert_eq!(num_leaves(entries_per_page + 1, size), 2);
    assert_eq!(num_leaves(entries_per_page - 1, size), 1);

    assert_eq!(num_leaves(entries_per_page * 99, size), 99);
    assert_eq!(num_leaves(entries_per_page * 99 + 1, size), 100);
    assert_eq!(num_leaves(entries_per_page * 99 - 1, size), 99);
}

#[test]
fn test_tree_depth() {
    let entries_per_page = num_entries_per_page();
    let fanout = fanout();
    let size = page_size();

    assert_eq!(tree_depth(0, size), 0);
    assert_eq!(tree_depth(1, size), 0);

    assert_eq!(tree_depth(entries_per_page, size), 0);
    assert_eq!(tree_depth(entries_per_page + 1, size), 1);
    assert_eq!(tree_depth(entries_per_page - 1, size), 0);

    assert_eq!(tree_depth(entries_per_page * fanout, size), 1);
    assert_eq!(tree_depth(entries_per_page * fanout + 1, size), 2);
    assert_eq!(tree_depth(entries_per_page * fanout - 1, size), 1);

    assert_eq!(tree_depth(entries_per_page * fanout.pow(2), size), 2);
    assert_eq!(tree_depth(entries_per_page * fanout.pow(2) + 1, size), 3);
    assert_eq!(tree_depth(entries_per_page * fanout.pow(2) - 1, size), 2);
}

#[test]
fn test_num_nodes() {
    let entries_per_page = num_entries_per_page();
    let fanout = fanout();
    let size = page_size();

    assert_eq!(num_nodes(0, 0, size), 0);
    assert_eq!(num_nodes(0, 1, size), 1);

    let num_entries = entries_per_page * fanout;
    assert_eq!(num_nodes(1, num_entries, size), num_leaves(num_entries, size));
    assert_eq!(num_nodes(0, num_entries, size), 1);

    let num_entries = entries_per_page * fanout + 1;
    assert_eq!(num_nodes(2, num_entries, size), num_leaves(num_entries, size));
    assert_eq!(num_nodes(1, num_entries, size), 2);
    assert_eq!(num_nodes(0, num_entries, size), 1);

    let num_entries = entries_per_page * fanout.pow(2);
    assert_eq!(num_nodes(2, num_entries, size), num_leaves(num_entries, size));
    assert_eq!(num_nodes(1, num_entries, size), fanout);
    assert_eq!(num_nodes(0, num_entries, size), 1);

    let num_entries = entries_per_page * fanout.pow(2) + 1;
    assert_eq!(num_nodes(3, num_entries, size), num_leaves(num_entries, size));
    assert_eq!(num_nodes(2, num_entries, size), fanout + 1);
    assert_eq!(num_nodes(1, num_entries, size), 2);
    assert_eq!(num_nodes(0, num_entries, size), 1);
}

#[test]
fn test_indexing() {
    let entries_per_page = num_entries_per_page();
    let fanout = fanout();
    let size = page_size();

    let num_entries = entries_per_page * fanout.pow(2);
    assert_eq!(node_page_index(0, 0, num_entries, size), 0);
    assert_eq!(node_page_index(1, 0, num_entries, size), 1);
    assert_eq!(node_page_index(2, 0, num_entries, size), 1 + fanout);
    assert_eq!(
        node_page_index(3, 0, num_entries, size),
        1 + fanout + fanout.pow(2)
    );

    assert_eq!(node_page_index(0, 0, 0, size), 0);
}

#[test]
fn get_each_node_largest_entry_test() {
    let b = fanout();
    let entries: Vec<Key> = (0..b * 3 - 100).map(|value| value as Key).collect();
    let largest_in_each_node = get_last_in_each_chunk(&entries, b);

    let expected_largest: Vec<Key> = vec![b as i64 - 1, 2 * b as i64 - 1, 3 * b as i64 - 101];
    assert_eq!(largest_in_each_node, expected_largest);

    let largest_in_each_node = get_last_in_each_chunk(&largest_in_each_node, b);
    let expected_largest: Vec<Key> = vec![3 * b as i64 - 101];
    assert_eq!(largest_in_each_node, expected_largest);
}

#[test]
fn a_run_of_one_page_has_no_inner_nodes() {
    let size = 4096;
    assert!(!has_inner_nodes(0, size));
    assert!(!has_inner_nodes(256, size));
    assert!(has_inner_nodes(257, size));
    assert!(!has_inner_nodes(num_entries_per_page(), page_size()));
    assert!(has_inner_nodes(num_entries_per_page() + 1, page_size()));
    assert_eq!(tree_depth(256, size), 0);
    assert_eq!(tree_depth(257, size), 1);
}

#[test]
fn levels_lie_one_after_another() {
    let size = 4096;
    // 513 leaves under a fanout of 512: two nodes under one root.
    let num_entries = 512 * 256 + 1;
    assert_eq!(num_leaves(num_entries, size), 513);
    assert_eq!(tree_depth(num_entries, size), 2);
    assert_eq!(subtree_height(0, num_entries, size), 2);
    assert_eq!(subtree_height(2, num_entries, size), 0);
    assert_eq!(leaves_in_subtree(1, num_entries, size), 512);
    assert_eq!(leaves_in_subtree(2, num_entries, size), 1);
    assert_eq!(depth_page_index(0, num_entries, size), 0);
    assert_eq!(depth_page_index(1, num_entries, size), 1);
    assert_eq!(depth_page_index(2, num_entries, size), 3);
    assert_eq!(node_page_index(1, 1, num_entries, size), 2);
    assert_eq!(node_byte_index(1, 1, num_entries, size), 2 * 4096);
}
