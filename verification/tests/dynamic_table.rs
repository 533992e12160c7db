use tquic::h3::qpack::dynamic_table::{DynamicTable, DynamicTableEntry, ENTRY_OVERHEAD};
use tquic::h3::Http3Error;

#[test]
fn new_table_is_empty() {
    let table = DynamicTable::new();
    assert_eq!(table.capacity(), 0);
    assert_eq!(table.size(), 0);
    assert_eq!(table.len(), 0);
    assert!(table.is_empty());
    assert_eq!(table.insert_count(), 0);
}

#[test]
fn set_capacity() {
    let mut table = DynamicTable::new();
    table.set_capacity(1024);
    assert_eq!(table.capacity(), 1024);
}

#[test]
fn insert_single_entry() {
    let mut table = DynamicTable::with_capacity(1024);
    let name = b"content-type".to_vec();
    let value = b"text/html".to_vec();
    let entry_size = name.len() + value.len() + ENTRY_OVERHEAD;

    let index = table.insert(name.clone(), value.clone()).unwrap();

    assert_eq!(index, 0);
    assert_eq!(table.insert_count(), 1);
    assert_eq!(table.len(), 1);
    assert_eq!(table.size(), entry_size);

    let entry = table.get(0).unwrap();
    assert_eq!(entry.name, name);
    assert_eq!(entry.value, value);
}

#[test]
fn insert_multiple_entries() {
    let mut table = DynamicTable::with_capacity(1024);

    let idx0 = table.insert(b"name1".to_vec(), b"value1".to_vec()).unwrap();
    let idx1 = table.insert(b"name2".to_vec(), b"value2".to_vec()).unwrap();
    let idx2 = table.insert(b"name3".to_vec(), b"value3".to_vec()).unwrap();

    assert_eq!(idx0, 0);
    assert_eq!(idx1, 1);
    assert_eq!(idx2, 2);
    assert_eq!(table.len(), 3);
    assert_eq!(table.insert_count(), 3);

    assert_eq!(table.get(0).unwrap().name, b"name1");
    assert_eq!(table.get(1).unwrap().name, b"name2");
    assert_eq!(table.get(2).unwrap().name, b"name3");
}

#[test]
fn eviction_on_capacity() {
    // Entry size = 4 + 4 + 32 = 40 bytes each.
    let mut table = DynamicTable::with_capacity(80); // Room for 2 entries.

    table.insert(b"aaa1".to_vec(), b"bbb1".to_vec()).unwrap();
    table.insert(b"aaa2".to_vec(), b"bbb2".to_vec()).unwrap();

    assert_eq!(table.len(), 2);
    assert_eq!(table.insert_count(), 2);

    // Insert a third entry, which should evict the first.
    table.insert(b"aaa3".to_vec(), b"bbb3".to_vec()).unwrap();

    assert_eq!(table.len(), 2);
    assert_eq!(table.insert_count(), 3);

    // Entry 0 should be evicted.
    assert!(table.get(0).is_err());
    // Entry 1 and 2 should be accessible.
    assert_eq!(table.get(1).unwrap().name, b"aaa2");
    assert_eq!(table.get(2).unwrap().name, b"aaa3");
}

#[test]
fn insert_entry_too_large() {
    let mut table = DynamicTable::with_capacity(40);
    // Entry of size 50 + 32 = 82 bytes, larger than capacity.
    let result = table.insert(b"x".repeat(25).to_vec(), b"y".repeat(25).to_vec());
    assert!(result.is_err());
}

#[test]
fn get_invalid_index() {
    let mut table = DynamicTable::with_capacity(1024);
    table.insert(b"name".to_vec(), b"value".to_vec()).unwrap();

    // Index not yet inserted.
    assert!(table.get(1).is_err());
    // Index never inserted.
    assert!(table.get(100).is_err());
}

#[test]
fn find_entry() {
    let mut table = DynamicTable::with_capacity(1024);
    table.insert(b"name1".to_vec(), b"value1".to_vec()).unwrap();
    table.insert(b"name2".to_vec(), b"value2".to_vec()).unwrap();
    table.insert(b"name1".to_vec(), b"value3".to_vec()).unwrap();

    // Find exact match.
    assert_eq!(table.find(b"name2", b"value2"), Some(1));
    // Find by name (should return newest matching entry).
    assert_eq!(table.find_name(b"name1"), Some(2));
    // Not found.
    assert_eq!(table.find(b"name3", b"value3"), None);
}

#[test]
fn relative_to_absolute_index() {
    let mut table = DynamicTable::with_capacity(1024);
    table.insert(b"name0".to_vec(), b"value0".to_vec()).unwrap();
    table.insert(b"name1".to_vec(), b"value1".to_vec()).unwrap();
    table.insert(b"name2".to_vec(), b"value2".to_vec()).unwrap();

    // With base = 3 (insert_count), relative index 0 = absolute 2.
    assert_eq!(table.relative_to_absolute(0, 3).unwrap(), 2);
    // Relative index 1 = absolute 1.
    assert_eq!(table.relative_to_absolute(1, 3).unwrap(), 1);
    // Relative index 2 = absolute 0.
    assert_eq!(table.relative_to_absolute(2, 3).unwrap(), 0);
    // Relative index >= base is invalid.
    assert!(table.relative_to_absolute(3, 3).is_err());
}

#[test]
fn post_base_to_absolute_index() {
    let mut table = DynamicTable::with_capacity(1024);
    table.insert(b"name0".to_vec(), b"value0".to_vec()).unwrap();
    table.insert(b"name1".to_vec(), b"value1".to_vec()).unwrap();
    table.insert(b"name2".to_vec(), b"value2".to_vec()).unwrap();

    // With base = 1, post-base index 0 = absolute 1.
    assert_eq!(table.post_base_to_absolute(0, 1).unwrap(), 1);
    // Post-base index 1 = absolute 2.
    assert_eq!(table.post_base_to_absolute(1, 1).unwrap(), 2);
    // Post-base index pointing beyond insert_count is invalid.
    assert!(table.post_base_to_absolute(3, 1).is_err());
}

#[test]
fn duplicate_entry() {
    let mut table = DynamicTable::with_capacity(1024);
    table.insert(b"name".to_vec(), b"value".to_vec()).unwrap();

    let dup_idx = table.duplicate(0).unwrap();
    assert_eq!(dup_idx, 1);
    assert_eq!(table.len(), 2);

    let original = table.get(0).unwrap();
    let duplicate = table.get(1).unwrap();
    assert_eq!(original.name, duplicate.name);
    assert_eq!(original.value, duplicate.value);
}

#[test]
fn clear_table() {
    let mut table = DynamicTable::with_capacity(1024);
    table.insert(b"name".to_vec(), b"value".to_vec()).unwrap();
    table.insert(b"name2".to_vec(), b"value2".to_vec()).unwrap();

    table.clear();

    assert_eq!(table.len(), 0);
    assert_eq!(table.size(), 0);
    assert!(table.is_empty());
    // Insert count should remain unchanged.
    assert_eq!(table.insert_count(), 2);
}

#[test]
fn capacity_reduction_evicts() {
    let mut table = DynamicTable::with_capacity(1024);
    // Entry size = 4 + 4 + 32 = 40 bytes each.
    table.insert(b"aaa1".to_vec(), b"bbb1".to_vec()).unwrap();
    table.insert(b"aaa2".to_vec(), b"bbb2".to_vec()).unwrap();
    table.insert(b"aaa3".to_vec(), b"bbb3".to_vec()).unwrap();

    assert_eq!(table.len(), 3);
    assert_eq!(table.size(), 120);

    // Reduce capacity to fit only 2 entries.
    table.set_capacity(80);

    assert_eq!(table.len(), 2);
    assert_eq!(table.size(), 80);
    // First entry should be evicted.
    assert!(table.get(0).is_err());
    assert!(table.get(1).is_ok());
    assert!(table.get(2).is_ok());
}

#[test]
fn case_insensitive_name_matching() {
    let mut table = DynamicTable::with_capacity(1024);
    table
        .insert(b"Content-Type".to_vec(), b"text/html".to_vec())
        .unwrap();

    // Find with different case should work for name.
    assert_eq!(table.find_name(b"content-type"), Some(0));
    assert_eq!(table.find_name(b"CONTENT-TYPE"), Some(0));

    // Find exact should match name case-insensitively but value exactly.
    assert_eq!(table.find(b"content-type", b"text/html"), Some(0));
    // Value must match exactly.
    assert_eq!(table.find(b"content-type", b"TEXT/HTML"), None);
}

#[test]
fn default_table_is_new_table() {
    let table = DynamicTable::default();
    assert_eq!(table.capacity(), 0);
    assert_eq!(table.size(), 0);
    assert!(table.is_empty());
    assert_eq!(table.insert_count(), 0);
}

#[test]
fn entry_size_counts_overhead() {
    let entry = DynamicTableEntry::new(b"name".to_vec(), b"value".to_vec());
    assert_eq!(entry.name, b"name");
    assert_eq!(entry.value, b"value");
    assert_eq!(entry.size(), 41);
    assert_eq!(DynamicTableEntry::new(vec![], vec![]).size(), ENTRY_OVERHEAD);
}

#[test]
fn refused_entry_leaves_table_unchanged() {
    let mut table = DynamicTable::with_capacity(80);
    table.insert(b"aaa1".to_vec(), b"bbb1".to_vec()).unwrap();
    let result = table.insert(vec![b'x'; 25], vec![b'y'; 25]);
    assert_eq!(result, Err(Http3Error::QpackEncoderStreamError));
    assert_eq!(table.len(), 1);
    assert_eq!(table.size(), 40);
    assert_eq!(table.insert_count(), 1);
    assert_eq!(table.get(0).unwrap().name, b"aaa1");
}

#[test]
fn entry_of_exactly_the_capacity_fits() {
    let mut table = DynamicTable::with_capacity(40);
    assert_eq!(table.insert(b"aaa1".to_vec(), b"bbb1".to_vec()), Ok(0));
    assert_eq!(table.insert(b"aaa2".to_vec(), b"bbb2".to_vec()), Ok(1));
    assert_eq!(table.len(), 1);
    assert_eq!(table.size(), 40);
    assert_eq!(
        table.insert(b"aaa3".to_vec(), b"bbb33".to_vec()),
        Err(Http3Error::QpackEncoderStreamError)
    );
    // Even an empty entry counts its overhead.
    let mut none = DynamicTable::new();
    assert_eq!(
        none.insert(vec![], vec![]),
        Err(Http3Error::QpackEncoderStreamError)
    );
}

#[test]
fn large_entry_evicts_several() {
    let mut table = DynamicTable::with_capacity(120);
    for i in 0..3u8 {
        table.insert(vec![i; 4], vec![i; 4]).unwrap();
    }
    // 41 + 41 + 32 bytes leave no room for any of the three.
    assert_eq!(table.insert(vec![9; 41], vec![9; 41]), Ok(3));
    assert_eq!(table.len(), 1);
    assert_eq!(table.size(), 114);
    assert_eq!(table.get(2).unwrap_err(), Http3Error::QpackDecompressionFailed);
    assert_eq!(table.get(3).unwrap().name, vec![9; 41]);
}

#[test]
fn eviction_takes_no_more_than_needed() {
    let mut table = DynamicTable::with_capacity(120);
    for i in 0..3u8 {
        table.insert(vec![i; 4], vec![i; 4]).unwrap();
    }
    assert_eq!(table.insert(vec![9; 4], vec![9; 5]), Ok(3));
    assert_eq!(table.len(), 2);
    assert_eq!(table.size(), 81);
    assert!(table.get(1).is_err());
    assert_eq!(table.get(2).unwrap().name, vec![2; 4]);
}

#[test]
fn raising_the_capacity_evicts_nothing() {
    let mut table = DynamicTable::with_capacity(40);
    table.insert(b"aaa1".to_vec(), b"bbb1".to_vec()).unwrap();
    table.set_capacity(80);
    assert_eq!(table.len(), 1);
    table.insert(b"aaa2".to_vec(), b"bbb2".to_vec()).unwrap();
    assert_eq!(table.len(), 2);
    table.set_capacity(0);
    assert_eq!(table.len(), 0);
    assert_eq!(table.size(), 0);
    assert_eq!(table.insert_count(), 2);
}

#[test]
fn insert_with_name_ref_inserts() {
    let mut table = DynamicTable::with_capacity(1024);
    assert_eq!(table.insert_with_name_ref(b"n".to_vec(), b"v".to_vec()), Ok(0));
    assert_eq!(table.get(0).unwrap().value, b"v");
    table.set_capacity(33);
    assert_eq!(
        table.insert_with_name_ref(b"n".to_vec(), b"v".to_vec()),
        Err(Http3Error::QpackEncoderStreamError)
    );
}

#[test]
fn indices_are_not_given_out_again_after_clear() {
    let mut table = DynamicTable::with_capacity(1024);
    table.insert(b"name".to_vec(), b"value".to_vec()).unwrap();
    table.clear();
    assert_eq!(table.get(0).unwrap_err(), Http3Error::QpackDecompressionFailed);
    assert_eq!(table.insert(b"name2".to_vec(), b"value2".to_vec()), Ok(1));
    assert_eq!(table.get(1).unwrap().name, b"name2");
    assert_eq!(table.find_name(b"name"), None);
}

#[test]
fn duplicate_can_evict_its_original() {
    let mut table = DynamicTable::with_capacity(60);
    table.insert(b"name".to_vec(), b"value".to_vec()).unwrap();
    assert_eq!(table.duplicate(0), Ok(1));
    assert_eq!(table.len(), 1);
    assert!(table.get(0).is_err());
    assert_eq!(table.get(1).unwrap().name, b"name");
    assert_eq!(table.get(1).unwrap().value, b"value");
    assert_eq!(table.duplicate(0), Err(Http3Error::QpackDecompressionFailed));
    assert_eq!(table.duplicate(2), Err(Http3Error::QpackDecompressionFailed));
}

#[test]
fn converted_indices_must_be_held() {
    let mut table = DynamicTable::with_capacity(80);
    for i in 0..3u8 {
        table.insert(vec![i; 4], vec![i; 4]).unwrap();
    }
    // Entry 0 is evicted.
    assert_eq!(table.relative_to_absolute(0, 2), Ok(1));
    assert_eq!(
        table.relative_to_absolute(1, 2),
        Err(Http3Error::QpackDecompressionFailed)
    );
    assert_eq!(
        table.relative_to_absolute(0, 0),
        Err(Http3Error::QpackDecompressionFailed)
    );
    assert_eq!(
        table.relative_to_absolute(0, 4),
        Err(Http3Error::QpackDecompressionFailed)
    );
    assert_eq!(
        table.post_base_to_absolute(0, 0),
        Err(Http3Error::QpackDecompressionFailed)
    );
    assert_eq!(table.post_base_to_absolute(0, 2), Ok(2));
    assert_eq!(
        table.post_base_to_absolute(1, 2),
        Err(Http3Error::QpackDecompressionFailed)
    );
    // The newest entry has relative index 0 from the insert count.
    let newest = table.relative_to_absolute(0, table.insert_count()).unwrap();
    assert_eq!(table.get(newest).unwrap().name, vec![2; 4]);
}

#[test]
fn post_base_index_reads_what_was_inserted_after_the_base() {
    let mut table = DynamicTable::with_capacity(1024);
    table.insert(b"old".to_vec(), b"0".to_vec()).unwrap();
    let base = table.insert_count();
    table.insert(b"first".to_vec(), b"1".to_vec()).unwrap();
    table.insert(b"second".to_vec(), b"2".to_vec()).unwrap();
    let first = table.post_base_to_absolute(0, base).unwrap();
    let second = table.post_base_to_absolute(1, base).unwrap();
    assert_eq!(table.get(first).unwrap().name, b"first");
    assert_eq!(table.get(second).unwrap().name, b"second");
}

#[test]
fn find_returns_the_newest_after_eviction() {
    let mut table = DynamicTable::with_capacity(80);
    table.insert(b"aaa1".to_vec(), b"bbb1".to_vec()).unwrap();
    table.insert(b"AAA1".to_vec(), b"bbb1".to_vec()).unwrap();
    assert_eq!(table.find(b"aaa1", b"bbb1"), Some(1));
    table.insert(b"aaa2".to_vec(), b"bbb2".to_vec()).unwrap();
    table.insert(b"aaa3".to_vec(), b"bbb3".to_vec()).unwrap();
    assert_eq!(table.find(b"aaa1", b"bbb1"), None);
    assert_eq!(table.find_name(b"aAa3"), Some(3));
    // Only letters have two cases, and lengths must agree.
    assert_eq!(table.find_name(b"aaa"), None);
    assert_eq!(table.find_name(b"aaa\x13"), None);
}
