use lsm_store::memtable::Memtable;

#[test]
fn memtable_test_scan_empty() {
    let memtable: Memtable = Memtable::new();
    let result = memtable.scan(1, 3);
    assert_eq!(result, vec![]);
}

#[test]
fn memtable_test_scan_single() {
    let mut memtable: Memtable = Memtable::new();
    memtable.put(1, 1);
    let result = memtable.scan(1, 1);
    assert_eq!(result, vec![(1, 1)]);
}

#[test]
fn memtable_test_scan_multiple() {
    let mut memtable: Memtable = Memtable::new();
    memtable.put(1, 11);
    memtable.put(3, 33);
    let result = memtable.scan(1, 3);
    assert_eq!(result, vec![(1, 11), (3, 33)]);
}

#[test]
fn test_scan_order() {
    let mut memtable: Memtable = Memtable::new();
    memtable.put(1, 1);
    memtable.put(2, 3);
    memtable.put(3, 5);
    let result = memtable.scan(1, 3);
    assert_eq!(result, vec![(1, 1), (2, 3), (3, 5)]);
}

#[test]
fn test_scan_invalid_range() {
    let mut memtable: Memtable = Memtable::new();
    memtable.put(1, 1);
    memtable.put(2, 3);
    memtable.put(3, 5);
    assert_eq!(memtable.get(1), Some(1));

    let result = memtable.scan(4, 11);
    assert_eq!(result, vec![]);
}

#[test]
fn test_sst_read() {
    let mut memtable = Memtable::new();

    memtable.put(1, 11);
    memtable.put(2, 22);
    memtable.put(3, 33);
    memtable.put(4, 44);
    memtable.put(5, 55);
    memtable.put(6, 66);
    memtable.put(7, 77);
    memtable.put(8, 88);
    memtable.put(9, 99);

    assert_eq!(memtable.get(1), Some(11));
    assert_eq!(memtable.get(9), Some(99));
}

#[test]
fn memtable_overwrites_and_sorts() {
    let mut memtable = Memtable::new();
    memtable.put(5, 50);
    memtable.put(-3, 30);
    memtable.put(9, 90);
    memtable.put(5, 55);
    assert_eq!(memtable.len(), 3);
    assert_eq!(memtable.get(5), Some(55));
    assert_eq!(memtable.get(6), None);
    assert_eq!(memtable.as_vec(), vec![(-3, 30), (5, 55), (9, 90)]);
    assert_eq!(memtable.scan(9, -3), vec![]);
    assert_eq!(memtable.scan(-3, 5), vec![(-3, 30), (5, 55)]);
    memtable.clear();
    assert_eq!(memtable.len(), 0);
    assert_eq!(memtable.as_vec(), vec![]);
}

#[test]
fn memtable_scan_of_many_keys_is_ascending() {
    let mut memtable = Memtable::new();
    for i in 0..500 {
        let key = (i * 37) % 500;
        memtable.put(key, key * 2);
    }
    let all = memtable.as_vec();
    assert_eq!(all.len(), 500);
    for (i, entry) in all.iter().enumerate() {
        assert_eq!(*entry, (i as i64, i as i64 * 2));
    }
    assert_eq!(memtable.scan(100, 103), vec![(100, 200), (101, 202), (102, 204), (103, 206)]);
}
