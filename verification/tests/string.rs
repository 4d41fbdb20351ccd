use tyson::MemoryBlock as Block;
use tyson::StringBuilder;

#[test]
fn test_string_builder() {
    let mut block = Block::with_capacity(1024 * 1024);
    let mut arena = block.arena(1024).unwrap();

    let mut builder = StringBuilder::new(512);
    builder.push_str(&mut arena, "Hello, ");
    builder.push_str(&mut arena, "world!");
    builder.push_str(&mut arena, " This is a test of the StringBuilder.");
    let s = builder.build(&mut arena).unwrap();

    assert_eq!(s, "Hello, world! This is a test of the StringBuilder.");
}

#[test]
fn test_empty_string() {
    let mut block = Block::with_capacity(1024 * 1024);
    let mut arena = block.arena(1024).unwrap();

    let builder = StringBuilder::new(16);
    let s = builder.build(&mut arena).unwrap();

    assert_eq!(s, "");
}

#[test]
fn test_large_string() {
    let mut block = Block::with_capacity(1024 * 1024);
    let mut arena = block.arena(1024 * 10).unwrap();

    let mut builder = StringBuilder::new(512);
    for _ in 0..100 {
        builder.push_str(&mut arena, "This is a long string segment. ");
    }
    let s = builder.build(&mut arena).unwrap();

    assert_eq!(s, "This is a long string segment. ".repeat(100).as_str());
}

#[test]
fn test_string_builder_with_capacity() {
    let mut block = Block::with_capacity(1024 * 1024);
    let mut arena = block.arena(1024).unwrap();

    let mut builder = StringBuilder::new(256);
    builder.push_str(&mut arena, "Capacity test: ");
    builder.push_str(&mut arena, "This string should fit within the initial capacity.");
    let s = builder.build(&mut arena).unwrap();

    assert_eq!(
        s,
        "Capacity test: This string should fit within the initial capacity."
    );
}

#[test]
fn test_string_builder_utf8() {
    let mut block = Block::with_capacity(1024 * 1024);
    let mut arena = block.arena(1024).unwrap();

    let mut builder = StringBuilder::new(128);
    builder.push_str(&mut arena, "Hello, 世界! ");
    builder.push_str(&mut arena, "This is a test with UTF-8 characters.");
    let s = builder.build(&mut arena).unwrap();

    assert_eq!(s, "Hello, 世界! This is a test with UTF-8 characters.");
}

#[test]
fn test_string_builder_empty_page() {
    let mut block = Block::with_capacity(1024 * 1024);
    let mut arena = block.arena(1024).unwrap();

    let mut builder = StringBuilder::new(64);
    builder.push_str(&mut arena, "");
    let s = builder.build(&mut arena).unwrap();

    assert_eq!(s, "");
}

#[test]
fn test_string_display_and_eq() {
    let mut block = Block::with_capacity(1024 * 1024);
    let mut arena = block.arena(1024).unwrap();

    let mut builder = StringBuilder::new(64);
    builder.push_str(&mut arena, "abc");
    builder.push_str(&mut arena, "def");
    let s = builder.build(&mut arena).unwrap();

    // Display uses the string's own rendering
    let rendered = format!("{}", s);
    assert_eq!(rendered, "abcdef");

    // Equality between two built strings
    let mut builder2 = StringBuilder::new(64);
    builder2.push_str(&mut arena, "abcdef");
    let s2 = builder2.build(&mut arena).unwrap();
    assert!(s == s2);
}

#[test]
fn test_string_partial_eq_str_and_deref() {
    let mut block = Block::with_capacity(1024 * 1024);
    let mut arena = block.arena(1024).unwrap();

    let mut builder = StringBuilder::new(16);
    builder.push_str(&mut arena, "hello");
    let s = builder.build(&mut arena).unwrap();

    // Compare via &str view
    assert_eq!(s, "hello");
}

#[test]
fn test_string_builder_rejects_oversized_fragment() {
    let mut block = Block::with_capacity(1024 * 1024);
    let mut arena = block.arena(1024).unwrap();

    let mut builder = StringBuilder::new(4);
    assert!(!builder.push_str(&mut arena, "too large for one page"));
    assert!(builder.push_str(&mut arena, "ok"));
    let s = builder.build(&mut arena).unwrap();

    assert_eq!(s, "ok");
}

#[test]
fn test_string_builder_page_boundaries() {
    let mut block = Block::with_capacity(1024 * 1024);
    let mut arena = block.arena(1024).unwrap();

    // Page size 4 forces a page break between the two fragments.
    let mut builder = StringBuilder::new(4);
    assert!(builder.push_str(&mut arena, "abc"));
    assert!(builder.push_str(&mut arena, "def"));
    assert!(builder.push_str(&mut arena, "g"));
    let s = builder.build(&mut arena).unwrap();

    assert_eq!(s, "abcdefg");
}

#[test]
fn test_string_builder_exhausted_arena() {
    let mut block = Block::with_capacity(1024);
    let mut arena = block.arena(8).unwrap();

    // A fresh 16-byte page cannot be carved from an 8-byte arena.
    let mut builder = StringBuilder::new(16);
    assert!(!builder.push_str(&mut arena, "hello"));
    let s = builder.build(&mut arena).unwrap();
    assert_eq!(s, "");
}
