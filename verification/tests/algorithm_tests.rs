use lsm_store::algorithm::{binary_search_leftmost, binary_search_rightmost};

#[test]
fn test_leftmost_search() {
    let array = [1, 3, 5, 7, 9];
    assert_eq!(binary_search_leftmost(&array, 5), 2);
    assert_eq!(binary_search_leftmost(&array, 4), 2);
    assert_eq!(binary_search_leftmost(&array, 6), 3);

    assert_eq!(binary_search_leftmost(&array, 0), 0);
    assert_eq!(binary_search_leftmost(&array, 10), array.len());
}

#[test]
fn test_rightmost_search() {
    let array = [1, 3, 5, 7, 9];
    assert_eq!(binary_search_rightmost(&array, 5), 2);
    assert_eq!(binary_search_rightmost(&array, 4), 1);
    assert_eq!(binary_search_rightmost(&array, 6), 2);

    assert_eq!(binary_search_rightmost(&array, 0), -1);
    assert_eq!(binary_search_rightmost(&array, -20), -1);

    assert_eq!(binary_search_rightmost(&array, 10), array.len() as i64 - 1);
    assert_eq!(binary_search_rightmost(&array, 20), array.len() as i64 - 1);
}
