use lsm_store::btree_info::{fanout, node_size};
use lsm_store::serde_btree;
use lsm_store::serde_entry;
use lsm_store::system_info::page_size;
use lsm_store::types::{Key, StoreError, Value};

#[test]
fn serde_entry_test_serde() {
    let entries: [(Key, Value); 3] = [(2, 1), (-23, 323), (12353242346, -21312345434)];
    let buffer = serde_entry::serialize(&entries);
    let entries_deserialized = serde_entry::deserialize(&buffer).unwrap();

    assert_eq!(Vec::from(entries), entries_deserialized);
}

#[test]
fn serde_btree_test_serde() {
    let entries: [Key; 3] = [2, -23, 12353242346];
    let buffer = serde_btree::serialize(&entries, page_size());
    assert_eq!(buffer.len(), node_size());
    let entries_deserialized = serde_btree::deserialize(&buffer, page_size()).unwrap();

    assert_eq!(entries[..2].to_vec(), entries_deserialized);
}

#[test]
fn test_serde_large() {
    let entries: Vec<Key> = (-1000..1000).collect();
    let buffer = serde_btree::serialize(&entries, page_size());
    assert_eq!(buffer.len(), node_size());
    let entries_deserialized = serde_btree::deserialize(&buffer, page_size()).unwrap();

    assert_eq!(entries[..fanout() - 1].to_vec(), entries_deserialized);
}

#[test]
fn entry_layout_is_little_endian_key_then_value() {
    let buffer = serde_entry::serialize(&[(1, -1)]);
    let mut expected = vec![1u8, 0, 0, 0, 0, 0, 0, 0];
    expected.extend_from_slice(&[0xff; 8]);
    assert_eq!(buffer, expected);
}

#[test]
fn deserialize_refuses_partial_entries() {
    assert_eq!(serde_entry::deserialize(&[0u8; 17]), Err(StoreError::Corrupt));
    assert_eq!(serde_entry::deserialize_entry(&[0u8; 15]), Err(StoreError::Corrupt));
    assert_eq!(serde_entry::deserialize_entry(&[0u8; 16]), Ok((0, 0)));
    assert_eq!(serde_entry::deserialize(&[]), Ok(vec![]));
}

#[test]
fn entry_within_page_reads_the_slot() {
    let buffer = serde_entry::serialize(&[(1, 10), (2, 20), (3, 30)]);
    assert_eq!(serde_entry::deserialize_entry_within_page(&buffer, 1), Ok((2, 20)));
    assert_eq!(serde_entry::deserialize_entry_within_page(&buffer, 2), Ok((3, 30)));
    assert_eq!(serde_entry::deserialize_entry_within_page(&buffer, 0), Ok((1, 10)));
}

#[test]
fn buffered_deserialize_takes_a_prefix() {
    let buffer = serde_entry::serialize(&[(1, 10), (2, 20), (3, 30)]);
    assert_eq!(
        serde_entry::buffered_deserialize_from(&buffer, 32),
        Ok(vec![(1, 10), (2, 20)])
    );
    assert_eq!(
        serde_entry::buffered_deserialize_from(&buffer, 4096),
        Ok(vec![(1, 10), (2, 20), (3, 30)])
    );
    assert_eq!(serde_entry::buffered_deserialize_from(&buffer, 0), Ok(vec![]));
    assert_eq!(
        serde_entry::buffered_deserialize_from(&buffer, 20),
        Err(StoreError::Corrupt)
    );
}

#[test]
fn node_page_ends_with_its_count() {
    let size = 4096;
    let page = serde_btree::serialize(&[7, 8, 9], size);
    assert_eq!(page.len(), size);
    assert_eq!(&page[..8], &7i64.to_le_bytes());
    assert_eq!(&page[8..16], &8i64.to_le_bytes());
    assert!(page[16..size - 8].iter().all(|byte| *byte == 0));
    assert_eq!(&page[size - 8..], &2u64.to_le_bytes());
    assert_eq!(serde_btree::deserialize_node_metadata(&page), Ok(2));
    assert_eq!(serde_btree::deserialize_element(&page[..8]), Ok(7));
}

#[test]
fn node_page_with_impossible_count_is_refused() {
    let size = 4096;
    let mut page = vec![0u8; size];
    page[size - 8..].copy_from_slice(&(size as u64 / 8).to_le_bytes());
    assert_eq!(serde_btree::deserialize(&page, size), Err(StoreError::Corrupt));
    assert_eq!(serde_btree::deserialize(&page[..size - 8], size), Err(StoreError::Corrupt));
    assert_eq!(serde_btree::deserialize_element(&[0u8; 7]), Err(StoreError::Corrupt));
    assert_eq!(serde_btree::deserialize_node_metadata(&[0u8; 7]), Err(StoreError::Corrupt));
}

#[test]
fn entries_are_written_out_in_whole_blocks_and_cut_to_their_bytes() {
    let page = 64;
    let entries: Vec<(i64, i64)> = vec![(1, 10), (-2, 20), (3, -30)];
    let bytes = serde_entry::serialize(&entries);
    assert_eq!(bytes.len(), 48);

    let mut padded: Vec<u8> = vec![7, 7];
    assert_eq!(serde_entry::serialize_into_no_resize(&mut padded, &entries, page), 48);
    let block = lsm_store::system_info::min_write_size(page);
    let rounded = lsm_store::serde_util::nearest_min_write_size_multiple(48, page);
    assert_eq!(rounded % block, 0);
    assert_eq!(padded.len(), 2 + rounded);
    assert_eq!(&padded[..2], &[7, 7]);
    assert_eq!(&padded[2..50], &bytes[..]);
    assert!(padded[50..].iter().all(|byte| *byte == 0));

    let mut exact: Vec<u8> = vec![9];
    serde_entry::serialize_into(&mut exact, &entries, page);
    assert_eq!(exact.len(), 49);
    assert_eq!(&exact[1..], &bytes[..]);

    assert_eq!(serde_entry::deserialize_from(&bytes, page), Ok(entries.clone()));
    assert_eq!(serde_entry::deserialize_from(&[], page), Ok(vec![]));
    assert_eq!(
        serde_entry::deserialize_from(&bytes[..47], page),
        Err(StoreError::Corrupt)
    );
}

#[test]
fn a_node_is_appended_as_one_page() {
    let page = 64;
    let mut writer: Vec<u8> = vec![1, 2, 3];
    serde_btree::serialize_into(&mut writer, &[5, 6, 7], page);
    assert_eq!(writer.len(), 3 + page);
    assert_eq!(&writer[..3], &[1, 2, 3]);
    assert_eq!(&writer[3..], &serde_btree::serialize(&[5, 6, 7], page)[..]);
    assert_eq!(serde_btree::deserialize(&writer[3..], page), Ok(vec![5, 6]));
}
