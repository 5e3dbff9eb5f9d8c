use lsm_store::avl::{AvlNode, AvlTree};

// The keys stand for the letters "a" to "f", and "x".
const A: i64 = 'a' as i64;
const B: i64 = 'b' as i64;
const C: i64 = 'c' as i64;
const D: i64 = 'd' as i64;
const E: i64 = 'e' as i64;
const F: i64 = 'f' as i64;
const X: i64 = 'x' as i64;

fn leaf(key: i64, value: i64) -> Option<Box<AvlNode>> {
    Some(Box::new(AvlNode { key, value, height: 0, left: None, right: None }))
}

fn get_balanced_tree() -> AvlTree {
    AvlTree {
        len: 3,
        root: Some(Box::new(AvlNode {
            key: B,
            value: 2,
            height: 1,
            left: leaf(A, 1),
            right: leaf(C, 3),
        })),
    }
}

fn get_big_balanced_tree() -> AvlTree {
    AvlTree {
        len: 6,
        root: Some(Box::new(AvlNode {
            key: D,
            value: 4,
            height: 2,
            left: Some(Box::new(AvlNode {
                key: B,
                value: 2,
                height: 1,
                left: leaf(A, 1),
                right: leaf(C, 3),
            })),
            right: Some(Box::new(AvlNode {
                key: E,
                value: 5,
                height: 1,
                left: None,
                right: leaf(F, 6),
            })),
        })),
    }
}

#[test]
fn test_insert_size() {
    let mut tree = AvlTree::new();
    tree.insert(A, 1);
    tree.insert(C, 3);
    tree.insert(B, 2);

    assert_eq!(tree.len(), 3);
}

#[test]
fn test_rotation_left() {
    let mut tree = AvlTree::new();
    tree.insert(A, 1);
    tree.insert(B, 2);
    tree.insert(C, 3);

    assert_eq!(tree, get_balanced_tree());
}

#[test]
fn test_rotation_right() {
    let mut tree = AvlTree::new();
    tree.insert(C, 3);
    tree.insert(B, 2);
    tree.insert(A, 1);

    assert_eq!(tree, get_balanced_tree());
}

#[test]
fn test_rotation_left_right() {
    let mut tree = AvlTree::new();
    tree.insert(C, 3);
    tree.insert(A, 1);
    tree.insert(B, 2);

    assert_eq!(tree, get_balanced_tree());
}

#[test]
fn test_rotation_right_left() {
    let mut tree = AvlTree::new();
    tree.insert(C, 3);
    tree.insert(A, 1);
    tree.insert(B, 2);

    assert_eq!(tree, get_balanced_tree());
}

#[test]
fn test_rotation_big_tree() {
    let mut tree = AvlTree::new();
    tree.insert(C, 3);
    tree.insert(A, 1);
    tree.insert(B, 2);

    tree.insert(D, 4);
    tree.insert(E, 5);
    tree.insert(F, 6);
    assert_eq!(tree, get_big_balanced_tree());
}

#[test]
fn test_search_at_root() {
    assert_eq!(2, get_balanced_tree().search(B).unwrap());
}

#[test]
fn test_search_deep() {
    assert_eq!(6, get_big_balanced_tree().search(F).unwrap());
}

#[test]
fn test_take_min() {
    let mut tree = get_big_balanced_tree();
    let min = AvlTree::take_min_node(&mut tree.root).unwrap();
    assert_eq!(min.key, A);
}

#[test]
fn avl_test_delete() {
    let removed_tree = AvlTree {
        len: 5,
        root: Some(Box::new(AvlNode {
            key: D,
            value: 4,
            height: 2,
            left: Some(Box::new(AvlNode {
                key: B,
                value: 2,
                height: 1,
                left: None,
                right: leaf(C, 3),
            })),
            right: Some(Box::new(AvlNode {
                key: E,
                value: 5,
                height: 1,
                left: None,
                right: leaf(F, 6),
            })),
        })),
    };

    let mut tree = get_big_balanced_tree();
    let removed = tree.delete(A);
    assert_eq!(tree, removed_tree);
    assert_eq!(removed, Some(1));
}

#[test]
fn test_delete_root() {
    let removed_tree = AvlTree {
        len: 2,
        root: Some(Box::new(AvlNode {
            key: C,
            value: 3,
            height: 1,
            left: leaf(A, 1),
            right: None,
        })),
    };

    let mut tree = get_balanced_tree();
    let removed = tree.delete(B);
    assert_eq!(tree, removed_tree);
    assert_eq!(removed, Some(2))
}

#[test]
fn test_delete_non_key() {
    let mut tree = get_big_balanced_tree();
    let removed = tree.delete(X);
    assert_eq!(tree, get_big_balanced_tree());
    assert_eq!(removed, None)
}

#[test]
fn delete_of_a_node_with_two_children_keeps_the_rest() {
    let mut tree = AvlTree::new();
    for key in [50, 30, 70, 20, 40, 60, 80, 65, 75, 85] {
        tree.insert(key, key * 10);
    }
    assert_eq!(tree.delete(70), Some(700));
    assert_eq!(tree.len(), 9);
    assert_eq!(
        tree.to_vec(),
        vec![
            (20, 200),
            (30, 300),
            (40, 400),
            (50, 500),
            (60, 600),
            (65, 650),
            (75, 750),
            (80, 800),
            (85, 850)
        ]
    );
    assert_eq!(tree.search(75), Some(750));
    assert_eq!(tree.search(70), None);
}

#[test]
fn insert_overwrites_and_range_is_ascending() {
    let mut tree = AvlTree::new();
    for key in 0..100 {
        tree.insert((key * 7) % 100, key);
    }
    tree.insert(14, -1);
    assert_eq!(tree.len(), 100);
    assert_eq!(tree.search(14), Some(-1));
    let range = tree.range(10, 15);
    let keys: Vec<i64> = range.iter().map(|entry| entry.0).collect();
    assert_eq!(keys, vec![10, 11, 12, 13, 14, 15]);
    assert_eq!(tree.range(15, 10), vec![]);
    let node = AvlNode::new(3, 4);
    assert_eq!((node.key(), node.value(), node.height()), (3, 4, 0));
}
