use tyson::HashMap;
use tyson::MemoryBlock;
use tyson::StrSink;

#[test]
fn test_sink_accumulates_fragments() {
    let mut sink = StrSink::new(32);
    assert_eq!(sink.used(), 0);

    assert!(sink.write_str("Hello, "));
    assert!(sink.write_str("World!"));
    assert_eq!(sink.used(), 13);

    assert_eq!(sink.as_str(), Some("Hello, World!".to_string()));
}

#[test]
fn test_sink_empty_yields_nothing() {
    let sink = StrSink::new(32);
    assert_eq!(sink.as_str(), None);
}

#[test]
fn test_sink_failed_write_leaves_sink_usable() {
    let mut sink = StrSink::new(8);
    assert!(sink.write_str("abc"));

    // This fragment does not fit under the budget: the write fails and the
    // sink is unchanged, so a smaller fragment still succeeds.
    assert!(!sink.write_str("defghijk"));
    assert_eq!(sink.used(), 3);
    assert!(sink.write_str("de"));
    assert_eq!(sink.used(), 5);
    assert_eq!(sink.as_str(), Some("abcde".to_string()));
}

#[test]
fn test_sink_needs_terminator_room() {
    let mut sink = StrSink::new(4);
    // Three bytes plus the terminator reach the budget exactly: refused.
    assert!(!sink.write_str("abc"));

    let mut tight = StrSink::new(5);
    assert!(tight.write_str("abc"));
    assert_eq!(tight.as_str(), Some("abc".to_string()));
}

#[test]
fn test_hash_map_str_keys() {
    let mut block = MemoryBlock::with_capacity(1024 * 1024);
    let mut arena = block.arena(2048).unwrap();
    let mut map: HashMap<&str, i32> = HashMap::new(&mut arena, 4).unwrap();

    assert!(map.insert(&mut arena, &"alpha", &1).is_some());
    assert!(map.insert(&mut arena, &"beta", &2).is_some());
    assert!(map.insert(&mut arena, &"gamma", &3).is_some());

    assert_eq!(map.find(&"alpha"), Some(&1));
    assert_eq!(map.find(&"beta"), Some(&2));
    assert_eq!(map.find(&"gamma"), Some(&3));
    assert!(map.find(&"delta").is_none());

    // Equal contents in a different allocation still reach the same entry.
    let beta = String::from("beta");
    assert_eq!(map.find(&beta.as_str()), Some(&2));

    assert_eq!(map.remove(&"beta"), Some(2));
    assert!(!map.contains(&"beta"));
    assert_eq!(map.len(), 2);
}

#[test]
fn test_keyed_collections_integer_key_types() {
    let mut block = MemoryBlock::with_capacity(1024 * 1024);
    let mut arena = block.arena(4096).unwrap();

    let mut by_u64: HashMap<u64, i32> = HashMap::new(&mut arena, 4).unwrap();
    assert!(by_u64.insert(&mut arena, &7u64, &70).is_some());
    assert_eq!(by_u64.find(&7u64), Some(&70));

    let mut by_usize: HashMap<usize, i32> = HashMap::new(&mut arena, 4).unwrap();
    assert!(by_usize.insert(&mut arena, &9usize, &90).is_some());
    assert_eq!(by_usize.remove(&9usize), Some(90));

    let mut by_i64: tyson::Table<i64, i32> = tyson::Table::new(&mut arena, 4).unwrap();
    assert!(by_i64.insert(&-3i64, &30).is_some());
    assert_eq!(by_i64.get(&-3i64), Some(&30));
    assert_eq!(by_i64.index(&-3i64), Some(0));
}
