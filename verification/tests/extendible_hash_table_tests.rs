use lsm_store::extendible_hash_table::{truncate_binary, ExtendibleHashTable, TableKey};

fn print_buckets(hash_table: &ExtendibleHashTable<i32, i32>) {
    for slot in 0..hash_table.get_directory().len() {
        let bucket = hash_table.get_bucket(slot).unwrap();
        println!(
            "Bucket: {:?} ({}) is full? {} size {} capacity {}",
            bucket.get_elements(),
            bucket.get_bucket_id(),
            bucket.is_full(),
            bucket.get_size(),
            bucket.get_capacity()
        );
    }
}

#[test]
fn extendible_hash_table_test_test() {
    let mut hash_table = ExtendibleHashTable::<i32, i32>::new(10);

    assert_eq!(hash_table.get_global_depth(), 2);
    let iters = 1000;
    for i in 0..iters {
        hash_table.put(i, i);
    }

    println!("Global depth: {}", hash_table.get_global_depth());
    for i in 0..iters {
        println!(
            "Getting element: {} from bucket {}",
            i,
            hash_table.hash_key(&i)
        );
        println!("Element: {:?}", hash_table.get(&i).unwrap());
    }
    print_buckets(&hash_table);
    println!("Global depth: {}", hash_table.get_global_depth());
}

#[test]
fn extendible_hash_table_test_delete() {
    let mut hash_table = ExtendibleHashTable::<i32, i32>::new(10);

    hash_table.put(1, 10);
    hash_table.put(2, 20);
    hash_table.put(3, 30);

    assert_eq!(hash_table.remove(&2), Some((2, 20)));
    assert_eq!(hash_table.remove(&4), None);

    assert_eq!(hash_table.get(&2), None);
}

#[test]
fn test_truncate_binary() {
    assert_eq!(truncate_binary(0b101010, 4), 0b1010);
    assert_eq!(truncate_binary(0b111111, 8), 0b111111);
    assert_eq!(truncate_binary(0b11001100, 6), 0b001100);
}

#[test]
fn test_bucket_overflow_and_resizing() {
    let mut hash_table = ExtendibleHashTable::<i32, i32>::new(10);
    for i in 0..10 {
        hash_table.put(i, i * 100);
    }

    for i in 0..10 {
        assert_eq!(hash_table.get(&i), Some(i * 100));
    }
    assert!(hash_table.get_global_depth() > 1);
}

#[test]
fn test_edge_cases() {
    let mut hash_table = ExtendibleHashTable::<i32, i32>::new(10);
    for i in 0..1000 {
        hash_table.put(i, i);
    }
    assert_eq!(hash_table.get(&999), Some(999));

    hash_table.remove(&999);
    assert_eq!(hash_table.get(&999), None);
}

#[derive(Debug, Clone)]
struct CustomKey {
    id: i32,
    name: String,
}

impl vstd::view::View for CustomKey {
    type V = (i32, String);

    fn view(&self) -> (i32, String) {
        (self.id, self.name.clone())
    }
}

impl TableKey for CustomKey {
    fn spec_hash(_id: (i32, String)) -> u64 {
        unreachable!()
    }

    fn hash_code(&self) -> u64 {
        let mut hash: u64 = self.id as u64;
        for byte in self.name.bytes() {
            hash = hash.wrapping_mul(31).wrapping_add(byte as u64);
        }
        hash
    }

    fn same_key(&self, other: &Self) -> bool {
        self.id == other.id && self.name == other.name
    }

    fn duplicate(&self) -> Self {
        self.clone()
    }
}

#[test]
fn test_with_custom_structs() {
    let mut hash_table = ExtendibleHashTable::<CustomKey, i32>::new(10);
    let key1 = CustomKey {
        id: 1,
        name: "Key1".to_string(),
    };
    let key2 = CustomKey {
        id: 2,
        name: "Key2".to_string(),
    };

    hash_table.put(key1, 100);
    hash_table.put(key2, 200);

    assert_eq!(
        hash_table.get(&CustomKey {
            id: 1,
            name: "Key1".to_string()
        }),
        Some(100)
    );
}

#[test]
fn test_capacity_with_bucket() {
    let dir_size = 32;
    let num_buckets = 7;
    let bucket_size = 10;
    let mut hash_table =
        ExtendibleHashTable::<i32, i32>::with_capacity_buckets(bucket_size, num_buckets, dir_size);
    assert_eq!(hash_table.get_global_depth(), 5);
    for i in 0..10 {
        hash_table.put(i, i * 100);
    }
    let mut max_index = 0;
    for slot in 0..hash_table.get_directory().len() {
        let bucket = hash_table.get_bucket(slot).unwrap();
        let bucket_index = bucket.get_bucket_id();
        println!(
            "Bucket: {:?} ({}) is full? {} size {} capacity {}",
            bucket.get_elements(),
            bucket_index,
            bucket.is_full(),
            bucket.get_size(),
            bucket.get_capacity()
        );
        if bucket_index > max_index {
            max_index = bucket_index;
        }
    }
    for i in 0..10 {
        assert_eq!(hash_table.get(&i), Some(i * 100));
    }
    assert_eq!(max_index, num_buckets);
    assert_eq!(hash_table.get_directory().len(), dir_size);
}

#[test]
fn test_add_reorders() {
    let mut hash_table = ExtendibleHashTable::<i32, i32>::new(10);
    for i in 0..10 {
        hash_table.put(i, i * 100);
    }
    print_buckets(&hash_table);
    hash_table.get(&2);
    println!("--------");
    print_buckets(&hash_table);
}

#[test]
fn test_update_move_to_end() {
    let mut hash_table = ExtendibleHashTable::<i32, i32>::new(10);
    for i in 0..10 {
        hash_table.put(i, i * 100);
    }
    print_buckets(&hash_table);
    hash_table.put(2, 2);
    hash_table.put(11, 11);
    hash_table.put(9, 9);
    println!("--------");
    print_buckets(&hash_table);
}

#[test]
fn test_pop_bucket() {
    let mut hash_table = ExtendibleHashTable::<i32, i32>::new(10);
    for i in 0..10 {
        hash_table.put(i, i * 100);
    }
    print_buckets(&hash_table);
    hash_table.get(&1);
    let popped = hash_table.bucket_pop_front(0);
    assert_eq!(popped.unwrap(), (0, 0));
    let popped = hash_table.bucket_pop_front(1);
    assert_eq!(popped.unwrap(), (2, 200));
    println!("--------");
    print_buckets(&hash_table);
}

#[test]
fn test_table_size() {
    let mut hash_table = ExtendibleHashTable::<i32, i32>::new(10);
    for i in 0..10 {
        hash_table.put(i, i * 100);
    }
    assert_eq!(hash_table.get_current_size(), 10);
    hash_table.remove(&1);
    assert_eq!(hash_table.get_current_size(), 9);
    hash_table.put(1, 1);
    assert_eq!(hash_table.get_current_size(), 10);
    hash_table.put(2, 5);
    assert_eq!(hash_table.get_current_size(), 10);
}

#[test]
fn test_access_bit() {
    let mut hash_table = ExtendibleHashTable::<i32, i32>::new(10);
    for i in 0..10 {
        hash_table.put(i, i * 100);
    }
    hash_table.get(&1);
    assert!(hash_table.accessed(1));
    hash_table.set_accessed(1, false);
    assert!(!hash_table.accessed(1));
}

#[test]
fn test_small_bucket_size() {
    let mut hash_table = ExtendibleHashTable::<i32, i32>::new(2);
    let iters = 10000;
    for i in 0..iters {
        hash_table.put(i, i);
    }

    for i in 0..iters {
        assert_eq!(hash_table.get(&i), Some(i));
    }
}

#[test]
fn test_insert_large_values() {
    let mut hash_table = ExtendibleHashTable::<i32, i32>::new(10);
    let iters = 10000;

    for i in 0..iters {
        hash_table.put(i, 10000000);
    }

    for i in 0..iters {
        assert_eq!(hash_table.get(&i).unwrap(), 10000000);
    }
}

#[test]
fn put_says_whether_the_key_is_new_and_len_counts_keys() {
    let mut hash_table = ExtendibleHashTable::<i32, i32>::with_capacity_buckets(2, 3, 5);
    assert_eq!(hash_table.num_buckets(), 3);
    for i in 0..200 {
        assert!(hash_table.put(i, i));
    }
    for i in 0..200 {
        assert!(!hash_table.put(i, -i));
    }
    assert_eq!(hash_table.len(), 200);
    for i in 0..200 {
        assert_eq!(hash_table.get(&i), Some(-i));
    }
    for i in 0..100 {
        assert_eq!(hash_table.remove(&i), Some((i, -i)));
    }
    assert_eq!(hash_table.len(), 100);
    assert_eq!(hash_table.get(&50), None);
    assert_eq!(hash_table.get(&150), Some(-150));
}

#[test]
fn bucket_remove_lru_gives_up_the_oldest_key() {
    let mut hash_table = ExtendibleHashTable::<i32, i32>::with_capacity_buckets(10, 1, 1);
    hash_table.put(7, 70);
    hash_table.put(8, 80);
    hash_table.put(9, 90);
    hash_table.get(&7);
    assert_eq!(hash_table.bucket_remove_lru(0), Some(8));
    assert_eq!(hash_table.bucket_remove_lru(0), Some(9));
    assert_eq!(hash_table.bucket_remove_lru(0), Some(7));
    assert_eq!(hash_table.bucket_remove_lru(0), None);
    assert_eq!(hash_table.len(), 0);
}

#[test]
fn new_buckets_are_marked_as_used() {
    let hash_table = ExtendibleHashTable::<i32, i32>::with_capacity_buckets(10, 7, 32);
    assert_eq!(hash_table.len(), 0);
    assert_eq!(hash_table.num_buckets(), 7);
    for bucket in 0..7 {
        assert!(hash_table.accessed(bucket));
    }
}

#[test]
fn the_element_that_was_fetched_last_is_evicted_last() {
    let mut hash_table = ExtendibleHashTable::<i32, i32>::with_capacity_buckets(100, 1, 1);
    for key in [1, 2, 3] {
        hash_table.put(key, key * 10);
    }
    hash_table.set_accessed(0, false);
    assert_eq!(hash_table.get(&1), Some(10));
    assert!(hash_table.accessed(0));
    assert_eq!(hash_table.bucket_remove_lru(0), Some(2));
    hash_table.put(3, 33);
    assert_eq!(hash_table.bucket_remove_lru(0), Some(1));
    assert_eq!(hash_table.bucket_remove_lru(0), Some(3));
    assert_eq!(hash_table.bucket_remove_lru(0), None);
    assert_eq!(hash_table.len(), 0);
}
