use priority_toolkit::heaps::indexed_priority_queue::IndexedPQ;

#[test]
fn test_insert_and_pop() {
    let mut pq = IndexedPQ::new();
    assert!(pq.insert(String::from("a"), 3));
    assert!(pq.insert(String::from("b"), 1));
    assert!(pq.insert(String::from("c"), 2));

    assert_eq!(pq.pop(), Some((String::from("b"), 1)));
    assert_eq!(pq.pop(), Some((String::from("c"), 2)));
    assert_eq!(pq.pop(), Some((String::from("a"), 3)));
    assert_eq!(pq.pop(), None);
}

#[test]
fn indexed_priority_queue_tests_test_decrease_key() {
    let mut pq = IndexedPQ::new();
    pq.insert(String::from("a"), 3);
    pq.insert(String::from("b"), 2);
    pq.insert(String::from("c"), 1);

    assert!(pq.decrease_key(&String::from("a"), 0));
    assert_eq!(pq.pop(), Some((String::from("a"), 0)));
}

#[test]
fn indexed_priority_queue_tests_test_peek() {
    let mut pq = IndexedPQ::new();
    pq.insert(String::from("a"), 2);
    pq.insert(String::from("b"), 1);

    assert_eq!(pq.peek(), Some((&String::from("b"), &1)));
    assert_eq!(pq.len(), 2);
}

#[test]
fn test_contains() {
    let mut pq = IndexedPQ::new();
    pq.insert(String::from("a"), 1);

    assert!(pq.contains(&String::from("a")));
    assert!(!pq.contains(&String::from("b")));
}

#[test]
fn test_is_empty_and_len() {
    let mut pq = IndexedPQ::new();
    assert!(pq.is_empty());
    assert_eq!(pq.len(), 0);

    pq.insert(String::from("a"), 1);
    assert!(!pq.is_empty());
    assert_eq!(pq.len(), 1);
}

#[test]
fn test_duplicate_insert() {
    let mut pq = IndexedPQ::new();
    assert!(pq.insert(String::from("a"), 1));
    assert!(!pq.insert(String::from("a"), 2));
    assert_eq!(pq.len(), 1);
}

#[test]
fn test_decrease_key_nonexistent() {
    let mut pq = IndexedPQ::new();
    pq.insert(String::from("a"), 2);
    assert!(!pq.decrease_key(&String::from("b"), 1));
}

#[test]
fn test_large_dataset() {
    let mut pq = IndexedPQ::new();
    for i in 0..1000 {
        pq.insert(i, 1000 - i);
    }

    for i in 0..1000 {
        assert_eq!(pq.pop(), Some(((999 - i), i + 1)));
    }
}
