use tyson::List;
use tyson::MemoryBlock as Block;

#[test]
fn test_list_operations() {
    let mut block = Block::with_capacity(1024 * 1024);
    let mut arena = block.arena(1024).unwrap();
    let mut list: List<i32> = List::new();

    assert!(list.is_empty());
    assert_eq!(list.len(), 0);

    list.push_front(&mut arena, &1);
    assert!(!list.is_empty());
    assert_eq!(list.len(), 1);
    assert_eq!(list.peek_head(), Some(&1));
    assert_eq!(list.peek_tail(), Some(&1));

    list.push_back(&mut arena, &2);
    assert_eq!(list.len(), 2);
    assert_eq!(list.peek_tail(), Some(&2));

    assert_eq!(list.pop_front(), Some(&1));
    assert_eq!(list.len(), 1);
    assert_eq!(list.peek_head(), Some(&2));

    assert_eq!(list.pop_back(), Some(&2));
    assert!(list.is_empty());

    assert_eq!(list.peek_head(), None);
    assert_eq!(list.peek_tail(), None);
    assert_eq!(list.pop_front(), None);
    assert_eq!(list.pop_back(), None);
    assert_eq!(list.len(), 0);

    assert!(list.push_back(&mut arena, &3).is_some());
    assert_eq!(list.head().is_some(), true);
    assert_eq!(list.len(), 1);
}

#[test]
fn test_list_iter() {
    let mut block = Block::with_capacity(1024 * 1024);
    let mut arena = block.arena(1024).unwrap();
    let mut list: List<i32> = List::new();

    list.push_front(&mut arena, &1);
    list.push_back(&mut arena, &2);
    list.push_front(&mut arena, &3);

    let values = list.to_vec();
    assert_eq!(values, vec![3, 1, 2]);

    let first = *list.pop_front().unwrap();
    list.push_front(&mut arena, &(first + 10));

    let values_mut = list.to_vec();
    assert_eq!(&values_mut[1..], &[1, 2]);
}

#[test]
fn test_list_iter_mut() {
    let mut block = Block::with_capacity(1024 * 1024);
    let mut arena = block.arena(1024).unwrap();
    let mut list: List<i32> = List::new();

    list.push_front(&mut arena, &1);
    list.push_back(&mut arena, &2);
    list.push_front(&mut arena, &3);

    let values = list.to_vec();
    assert_eq!(values, vec![3, 1, 2]);

    let first = *list.pop_front().unwrap();
    list.push_front(&mut arena, &(first + 10));
    assert_eq!(list.peek_head(), Some(&13));

    let values_mut = list.to_vec();
    assert_eq!(&values_mut[1..], &[1, 2]);
}

#[test]
fn test_list_push_front() {
    let mut block = Block::with_capacity(1024 * 1024);
    let mut arena = block.arena(1024).unwrap();
    let mut list: List<i32> = List::new();

    assert!(list.push_front(&mut arena, &10).is_some());
    assert_eq!(list.len(), 1);
    assert_eq!(list.peek_head(), Some(&10));
    assert_eq!(list.peek_tail(), Some(&10));

    assert!(list.push_front(&mut arena, &20).is_some());
    assert_eq!(list.len(), 2);
    assert_eq!(list.peek_head(), Some(&20));
    assert_eq!(list.peek_tail(), Some(&10));
}

#[test]
fn test_list_push_back() {
    let mut block = Block::with_capacity(1024 * 1024);
    let mut arena = block.arena(1024).unwrap();
    let mut list: List<i32> = List::new();

    assert!(list.push_back(&mut arena, &10).is_some());
    assert_eq!(list.len(), 1);
    assert_eq!(list.peek_head(), Some(&10));
    assert_eq!(list.peek_tail(), Some(&10));

    assert!(list.push_back(&mut arena, &20).is_some());
    assert_eq!(list.len(), 2);
    assert_eq!(list.peek_head(), Some(&10));
    assert_eq!(list.peek_tail(), Some(&20));
}

#[test]
fn test_list_pop_front() {
    let mut block = Block::with_capacity(1024 * 1024);
    let mut arena = block.arena(1024).unwrap();
    let mut list: List<i32> = List::new();

    list.push_front(&mut arena, &10);
    list.push_front(&mut arena, &20);
    assert_eq!(list.len(), 2);

    assert_eq!(list.pop_front(), Some(&20));
    assert_eq!(list.len(), 1);
    assert_eq!(list.peek_head(), Some(&10));

    assert_eq!(list.pop_front(), Some(&10));
    assert!(list.is_empty());
    assert_eq!(list.peek_head(), None);
}

#[test]
fn test_list_pop_back() {
    let mut block = Block::with_capacity(1024 * 1024);
    let mut arena = block.arena(1024).unwrap();
    let mut list: List<i32> = List::new();

    list.push_back(&mut arena, &10);
    list.push_back(&mut arena, &20);
    assert_eq!(list.len(), 2);

    assert_eq!(list.pop_back(), Some(&20));
    assert_eq!(list.len(), 1);
    assert_eq!(list.peek_tail(), Some(&10));

    assert_eq!(list.pop_back(), Some(&10));
    assert!(list.is_empty());
    assert_eq!(list.peek_tail(), None);
}

#[test]
fn test_list_head() {
    let mut block = Block::with_capacity(1024 * 1024);
    let mut arena = block.arena(1024).unwrap();
    let mut list: List<i32> = List::new();

    assert!(list.head().is_none());

    list.push_front(&mut arena, &10);
    assert!(list.head().is_some());
    assert_eq!(list.peek_head(), Some(&10));

    list.push_back(&mut arena, &20);
    assert!(list.tail().is_some());
    assert_eq!(list.peek_tail(), Some(&20));
}

#[test]
fn test_list_tail() {
    let mut block = Block::with_capacity(1024 * 1024);
    let mut arena = block.arena(1024).unwrap();
    let mut list: List<i32> = List::new();

    assert!(list.tail().is_none());

    list.push_front(&mut arena, &10);
    assert!(list.tail().is_some());
    assert_eq!(list.peek_tail(), Some(&10));

    list.push_back(&mut arena, &20);
    assert!(list.tail().is_some());
    assert_eq!(list.peek_tail(), Some(&20));
}

#[test]
fn test_list_push_exhausted_arena() {
    let mut block = Block::with_capacity(64);
    let mut arena = block.arena(1).unwrap();
    let mut list: List<u64> = List::new();

    // A node cannot fit in a one-byte arena: the push fails and the list
    // and arena are untouched.
    assert!(list.push_front(&mut arena, &1).is_none());
    assert!(list.push_back(&mut arena, &2).is_none());
    assert!(list.is_empty());
    assert_eq!(arena.len(), 0);
}

#[test]
fn test_list_to_node() {
    let mut block = Block::with_capacity(1024 * 1024);
    let mut arena = block.arena(1024).unwrap();
    let mut list: List<i32> = List::new();

    list.push_back(&mut arena, &7);
    list.push_back(&mut arena, &8);

    let node = list.to_node().unwrap();
    assert_eq!(node.value, 7);
    assert!(node.next.is_some());

    let empty: List<i32> = List::new();
    assert!(empty.to_node().is_none());
}
