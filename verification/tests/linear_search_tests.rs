use priority_toolkit::search::linear_search::linear_search;

fn svec(items: &[&str]) -> Vec<String> {
    items.iter().map(|s| String::from(*s)).collect()
}

#[test]
fn test_linear_search_with_ints() {
    let arr = vec![1, 2, 3, 4, 5];
    assert_eq!(linear_search(&arr, &3), Some(2));
    assert_eq!(linear_search(&arr, &6), None);
}

#[test]
fn test_linear_search_with_strings() {
    let arr = svec(&["apple", "banana", "cherry"]);
    assert_eq!(linear_search(&arr, &String::from("banana")), Some(1));
    assert_eq!(linear_search(&arr, &String::from("orange")), None);
}
