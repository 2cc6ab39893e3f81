use priority_toolkit::arrays::reverse_array::reverse_array;

fn svec(items: &[&str]) -> Vec<String> {
    items.iter().map(|s| String::from(*s)).collect()
}

#[test]
fn test_reverse_array_with_integers_even_length() {
    let mut arr = vec![1, 2, 3, 4, 5, 6];
    reverse_array(&mut arr);
    assert_eq!(arr, vec![6, 5, 4, 3, 2, 1]);
}

#[test]
fn test_reverse_array_with_integers_odd_length() {
    let mut arr = vec![1, 2, 3, 4, 5];
    reverse_array(&mut arr);
    assert_eq!(arr, vec![5, 4, 3, 2, 1]);
}

#[test]
fn test_reverse_array_with_strings_even_length() {
    let mut arr = svec(&["apple", "banana", "cherry", "date"]);
    reverse_array(&mut arr);
    assert_eq!(arr, svec(&["date", "cherry", "banana", "apple"]));
}

#[test]
fn test_reverse_array_with_strings_odd_length() {
    let mut arr = svec(&["apple", "banana", "cherry"]);
    reverse_array(&mut arr);
    assert_eq!(arr, svec(&["cherry", "banana", "apple"]));
}

#[test]
fn test_reverse_array_with_empty_array() {
    let mut arr: Vec<i32> = Vec::new();
    reverse_array(&mut arr);
    assert_eq!(arr, Vec::<i32>::new());
}

#[test]
fn test_reverse_array_with_single_element() {
    let mut arr = vec![1];
    reverse_array(&mut arr);
    assert_eq!(arr, vec![1]);
}

#[test]
fn test_reverse_array_with_multiple_types() {
    let mut int_arr = vec![1, 2, 3];
    reverse_array(&mut int_arr);
    assert_eq!(int_arr, vec![3, 2, 1]);

    let mut str_arr = svec(&["a", "b", "c"]);
    reverse_array(&mut str_arr);
    assert_eq!(str_arr, svec(&["c", "b", "a"]));

    let mut float_arr = vec![1.1, 2.2, 3.3];
    reverse_array(&mut float_arr);
    assert_eq!(float_arr, vec![3.3, 2.2, 1.1]);
}
