use tyson::{MemoryBlock, Table};

const TEST_CAPACITY: usize = 2048;

#[test]
fn test_table() {
    let mut block = MemoryBlock::with_capacity(TEST_CAPACITY);
    let mut arena = block.arena(512).unwrap();
    let mut table = Table::new(&mut arena, 10).unwrap();

    assert!(table.is_empty());
    assert_eq!(table.len(), 0);
    assert_eq!(table.capacity(), 10);

    table.insert(&1, &100);
    table.insert(&2, &200);
    table.insert(&3, &300);

    assert!(!table.is_empty());
    assert_eq!(table.len(), 3);
    assert_eq!(table.get(&1), Some(&100));
    assert_eq!(table.get(&2), Some(&200));
    assert_eq!(table.get(&3), Some(&300));
}

#[test]
fn test_table_insert_existing_key() {
    let mut block = MemoryBlock::with_capacity(TEST_CAPACITY);
    let mut arena = block.arena(512).unwrap();
    let mut table = Table::new(&mut arena, 10).unwrap();

    table.insert(&1, &100);
    assert_eq!(table.get(&1), Some(&100));

    // Update existing key
    table.insert(&1, &150);
    assert_eq!(table.get(&1), Some(&150));
}

#[test]
fn test_table_contains() {
    let mut block = MemoryBlock::with_capacity(TEST_CAPACITY);
    let mut arena = block.arena(512).unwrap();
    let mut table = Table::new(&mut arena, 10).unwrap();

    table.insert(&1, &100);
    assert!(table.contains(&1));
    assert!(!table.contains(&2));
}

#[test]
fn test_table_iter() {
    let mut block = MemoryBlock::with_capacity(TEST_CAPACITY);
    let mut arena = block.arena(512).unwrap();
    let mut table = Table::new(&mut arena, 10).unwrap();

    table.insert(&1, &100);
    table.insert(&2, &200);

    let entries = table.entries();
    assert_eq!(entries, vec![(1, 100), (2, 200)]);
}

#[test]
fn test_table_keys_values() {
    let mut block = MemoryBlock::with_capacity(TEST_CAPACITY);
    let mut arena = block.arena(512).unwrap();
    let mut table = Table::new(&mut arena, 10).unwrap();

    table.insert(&1, &100);
    table.insert(&2, &200);

    let keys_iter: Vec<_> = table.keys();
    let values_iter: Vec<_> = table.values();

    assert_eq!(keys_iter, vec![1, 2]);
    assert_eq!(values_iter, vec![100, 200]);
}

#[test]
fn test_table_full_capacity() {
    let mut block = MemoryBlock::with_capacity(TEST_CAPACITY);
    let mut arena = block.arena(512).unwrap();
    let mut table = Table::new(&mut arena, 2).unwrap();

    assert!(table.insert(&1, &100).is_some());
    assert!(table.insert(&2, &200).is_some());
    assert!(table.insert(&3, &300).is_none()); // Should fail due to capacity

    assert_eq!(table.len(), 2);
    assert_eq!(table.get(&1), Some(&100));
    assert_eq!(table.get(&2), Some(&200));
}

#[test]
fn test_table_index() {
    let mut block = MemoryBlock::with_capacity(TEST_CAPACITY);
    let mut arena = block.arena(512).unwrap();
    let mut table = Table::new(&mut arena, 10).unwrap();

    table.insert(&1, &100);
    table.insert(&2, &200);
    table.insert(&3, &300);

    assert_eq!(table.index(&1), Some(0));
    assert_eq!(table.index(&2), Some(1));
    assert_eq!(table.index(&3), Some(2));
    assert_eq!(table.index(&4), None);
}

#[test]
fn test_table_insert_with_capacity() {
    let mut block = MemoryBlock::with_capacity(TEST_CAPACITY);
    let mut arena = block.arena(512).unwrap();
    let mut table = Table::new(&mut arena, 5).unwrap();

    for i in 0..5 {
        assert!(table.insert(&i, &(i * 10)).is_some());
    }

    assert!(table.insert(&5, &50).is_none()); // Should fail due to capacity
    assert_eq!(table.len(), 5);
}

#[test]
fn test_table_insert_with_str_keys() {
    let mut block = MemoryBlock::with_capacity(TEST_CAPACITY);
    let mut arena = block.arena(512).unwrap();
    let mut table = Table::new(&mut arena, 10).unwrap();

    // Insert different types of keys and values
    table.insert(&"key1", &100);
    table.insert(&"key2", &200);

    assert_eq!(table.get(&"key1"), Some(&100));
    assert_eq!(table.get(&"key2"), Some(&200));
}

#[test]
fn test_table_insert_with_custom_value_type() {
    #[derive(Debug, Clone, Copy, PartialEq, Eq)]
    struct CustomValue {
        data: usize,
    }

    let mut block = MemoryBlock::with_capacity(TEST_CAPACITY);
    let mut arena = block.arena(512).unwrap();
    let mut table = Table::new(&mut arena, 10).unwrap();

    table.insert(&1, &CustomValue { data: 100 });
    table.insert(&2, &CustomValue { data: 200 });

    assert_eq!(table.get(&1), Some(&CustomValue { data: 100 }));
    assert_eq!(table.get(&2), Some(&CustomValue { data: 200 }));
}

#[test]
fn test_table_insert_with_large_capacity() {
    let mut block = MemoryBlock::with_capacity(TEST_CAPACITY * 10);
    let mut arena = block.arena(TEST_CAPACITY * 10).unwrap();
    let mut table = Table::new(&mut arena, 100).unwrap();

    for i in 0..100 {
        assert!(table.insert(&i, &(i * 10)).is_some());
    }

    assert!(table.insert(&101, &1010).is_none()); // Should fail due to capacity
    assert_eq!(table.len(), 100);
}

#[test]
fn test_table_insert_with_empty_keys_and_values() {
    let mut block = MemoryBlock::with_capacity(TEST_CAPACITY);
    let mut arena = block.arena(512).unwrap();
    let mut table = Table::new(&mut arena, 0).unwrap();

    assert!(table.insert(&1, &100).is_none()); // Should fail due to empty capacity
    assert!(table.is_empty());
}

#[test]
fn test_table_insert_with_full_capacity() {
    let mut block = MemoryBlock::with_capacity(TEST_CAPACITY);
    let mut arena = block.arena(512).unwrap();
    let mut table = Table::new(&mut arena, 5).unwrap();

    for i in 0..5 {
        assert!(table.insert(&i, &(i * 10)).is_some());
    }

    assert!(table.insert(&5, &50).is_none()); // Should fail due to capacity
    assert_eq!(table.len(), 5);
}
