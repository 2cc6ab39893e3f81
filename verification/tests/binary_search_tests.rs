use priority_toolkit::search::binary_search::binary_search;

fn svec(items: &[&str]) -> Vec<String> {
    items.iter().map(|s| String::from(*s)).collect()
}

#[test]
fn test_binary_search_with_integers() {
    let arr = vec![1, 2, 3, 4, 5, 6];
    assert_eq!(binary_search(&arr, &4), Some(3));
    assert_eq!(binary_search(&arr, &1), Some(0));
    assert_eq!(binary_search(&arr, &6), Some(5));
    assert_eq!(binary_search(&arr, &7), None);
}

#[test]
fn test_binary_search_with_strings() {
    let arr = svec(&["apple", "banana", "cherry", "date"]);
    assert_eq!(binary_search(&arr, &String::from("banana")), Some(1));
    assert_eq!(binary_search(&arr, &String::from("apple")), Some(0));
    assert_eq!(binary_search(&arr, &String::from("date")), Some(3));
    assert_eq!(binary_search(&arr, &String::from("fig")), None);
}
