use lsm_store::buffer_pool::{BufferPool, PageKey};
use lsm_store::extendible_hash_table::TableKey;
use lsm_store::system_info::page_size;
use std::hash::Hasher;

#[test]
fn test_insert() {
    let mut b = BufferPool::new(1, 3);
    let page_data = vec![0, 0, 1, 0, 1];
    let path = "database/0/0.sst";
    let page_index = 0;
    b.insert(path, page_index, &page_data);

    let result = b.get(path, page_index);
    assert_eq!(result, Some(page_data));
}

#[test]
fn test_insert_replacement() {
    let mut b = BufferPool::new(1, 3);
    let page_data = vec![0, 0, 1, 0, 1];
    let path = "database/0/0.sst";
    let page_index = 0;
    b.insert(path, page_index, &page_data);

    let result = b.get(path, page_index);
    assert_eq!(result, Some(page_data));

    let replacement_data = vec![1, 1, 1, 1, 1];
    b.insert(path, page_index, &replacement_data);

    assert_eq!(b.len(), 1);

    let result = b.get(path, page_index);
    assert_eq!(result, Some(replacement_data));
}

#[test]
fn test_eviction() {
    let mut b = BufferPool::new(1, 3);
    let path = "database/0/0.sst";
    b.insert(path, 0, &[0, 0, 0, 0, 0]);
    b.insert(path, 1, &[0, 0, 0, 0, 1]);
    b.insert(path, 2, &[0, 0, 0, 1, 0]);
    b.insert(path, 3, &[0, 0, 0, 1, 1]);

    assert_eq!(b.len(), 3);

    assert_eq!(b.get(path, 3), Some(vec![0, 0, 0, 1, 1]));
    assert_eq!(b.get(path, 0), None);

    b.insert(path, 4, &[0, 0, 1, 0, 0]);

    assert_eq!(b.get(path, 4), Some(vec![0, 0, 1, 0, 0]));
    assert_eq!(b.get(path, 1), None);

    b.get(path, 2);

    b.insert(path, 5, &[0, 0, 1, 0, 1]);

    assert_eq!(b.get(path, 5), Some(vec![0, 0, 1, 0, 1]));
    assert_eq!(b.get(path, 3), None);
}

#[test]
fn test_remove() {
    let mut b = BufferPool::new(1, 3);
    let path = "database/0/0.sst";
    let path2 = "database/0/1.sst";
    b.insert(path, 0, &[0, 0, 0, 0, 0]);
    b.insert(path, 1, &[0, 0, 0, 0, 1]);
    b.insert(path2, 0, &[0, 0, 0, 1, 0]);

    b.remove(path);
    assert_eq!(b.get(path, 0), None);
    assert_eq!(b.get(path, 1), None);
    assert_eq!(b.get(path2, 0), Some(vec![0, 0, 0, 1, 0]));
}

#[test]
fn test_set_capacity() {
    let mut b = BufferPool::new(1, 3);
    let path = "database/0/0.sst";
    b.insert(path, 0, &[0, 0, 0, 0, 0]);
    b.insert(path, 1, &[0, 0, 0, 0, 1]);
    b.insert(path, 2, &[0, 0, 0, 1, 0]);
    b.insert(path, 3, &[0, 0, 0, 1, 1]);

    assert_eq!(b.len(), 3);
    assert!(b.len() <= b.capacity());

    b.set_capacity(1);
    assert_eq!(b.get(path, 0), None);
    assert_eq!(b.get(path, 1), None);
    assert_eq!(b.get(path, 2), None);
    assert_eq!(b.get(path, 3), Some(vec![0, 0, 0, 1, 1]));
    assert_eq!(b.len(), 1);

    assert!(b.len() <= b.capacity());
}

#[test]
fn test_large() {
    let mut b = BufferPool::new(4, 10);
    let path = "database/0/0.sst";

    let page = |_index| {
        let page_data: Vec<u8> = vec![0; page_size()];
        page_data
    };

    for i in 0..10000 {
        b.insert(path, i, &page(i));
        assert!(
            b.len() <= b.capacity(),
            "Went over capacity at insertion {}",
            i
        );
    }

    assert!(b.len() <= b.capacity());
}

#[test]
fn rename_hands_the_frames_over() {
    let mut b = BufferPool::new(2, 8);
    b.insert("db/0/0.sst", 0, &[1]);
    b.insert("db/0/0.sst", 1, &[2]);
    b.insert("db/1/0.sst", 0, &[9]);
    b.insert("db/0/1.sst", 0, &[3]);
    b.rename("db/0/0.sst", "db/1/0.sst");
    assert_eq!(b.get("db/0/0.sst", 0), None);
    assert_eq!(b.get("db/0/0.sst", 1), None);
    assert_eq!(b.get("db/1/0.sst", 0), Some(vec![1]));
    assert_eq!(b.get("db/1/0.sst", 1), Some(vec![2]));
    assert_eq!(b.get("db/0/1.sst", 0), Some(vec![3]));
    assert_eq!(b.len(), 3);
    b.rename("db/0/1.sst", "db/0/1.sst");
    assert_eq!(b.get("db/0/1.sst", 0), Some(vec![3]));
}

#[test]
fn a_pool_without_capacity_stores_nothing() {
    let mut b = BufferPool::new(1, 0);
    b.insert("p", 0, &[1, 2, 3]);
    assert_eq!(b.len(), 0);
    assert_eq!(b.get("p", 0), None);
    assert_eq!(b.capacity(), 0);
}

#[test]
fn the_key_of_a_frame_is_hashed_by_its_path_and_page() {
    let key = PageKey { path: String::from("db/0/3.sst"), page: 258 };
    let mut bytes = b"db/0/3.sst".to_vec();
    bytes.extend_from_slice(&[2, 1, 0, 0, 0, 0, 0, 0]);
    let mut hasher = twox_hash::XxHash64::with_seed(0);
    hasher.write(&bytes);
    assert_eq!(key.hash_code(), hasher.finish());

    let other = PageKey { path: String::from("db/0/3.sst"), page: 259 };
    assert_ne!(key.hash_code(), other.hash_code());
    assert!(key.same_key(&key.duplicate()));
    assert!(!key.same_key(&other));
}

#[test]
fn the_frame_that_was_used_least_recently_is_evicted_first() {
    let mut pool = BufferPool::new(1, 2);
    pool.insert("file", 0, &[0u8; 4]);
    pool.insert("file", 1, &[1u8; 4]);
    assert_eq!(pool.get("file", 0), Some(vec![0u8; 4]));
    pool.insert("file", 2, &[2u8; 4]);
    assert_eq!(pool.len(), 2);
    assert_eq!(pool.get("file", 1), None);
    assert_eq!(pool.get("file", 0), Some(vec![0u8; 4]));
    assert_eq!(pool.get("file", 2), Some(vec![2u8; 4]));
    pool.insert("file", 3, &[3u8; 4]);
    assert_eq!(pool.get("file", 0), None);
    assert_eq!(pool.get("file", 2), Some(vec![2u8; 4]));
    assert_eq!(pool.get("file", 3), Some(vec![3u8; 4]));
}
