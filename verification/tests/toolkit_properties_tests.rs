//! Scenario tests for the documented ordering properties, plus checks of
//! the edges that the contracts leave to run time.

use priority_toolkit::heaps::heap::{MaxHeap, MinHeap};
use priority_toolkit::heaps::indexed_heap::IndexedHeap;
use priority_toolkit::heaps::heap::MinHeapType;
use priority_toolkit::heaps::indexed_priority_queue::IndexedPQ;
use priority_toolkit::heaps::priority_queue::{MaxPriorityQueue, MinPriorityQueue};
use priority_toolkit::sorting::graph_topological_sort::Vertex;
use priority_toolkit::util::data_generation::{
    generate_random_vec, generate_reverse_sorted_vec, generate_sorted_vec,
};

#[test]
fn min_policy_pop_sequence() {
    let mut heap = MinHeap::new();
    heap.push(10);
    heap.push(20);
    heap.push(5);
    assert_eq!(heap.pop(), Some(5));
    assert_eq!(heap.pop(), Some(10));
    assert_eq!(heap.pop(), Some(20));
}

#[test]
fn max_policy_pop_sequence() {
    let mut heap = MaxHeap::new();
    heap.push(10);
    heap.push(20);
    heap.push(5);
    assert_eq!(heap.pop(), Some(20));
    assert_eq!(heap.pop(), Some(10));
    assert_eq!(heap.pop(), Some(5));
}

#[test]
fn equal_priority_is_fifo_in_both_policies() {
    let mut min_pq = MinPriorityQueue::new();
    min_pq.push("A", 5);
    min_pq.push("B", 5);
    assert_eq!(min_pq.pop(), Some("A"));
    assert_eq!(min_pq.pop(), Some("B"));

    let mut max_pq = MaxPriorityQueue::new();
    max_pq.push("A", 5);
    max_pq.push("B", 5);
    assert_eq!(max_pq.pop(), Some("A"));
    assert_eq!(max_pq.pop(), Some("B"));
}

#[test]
fn equal_priority_keys_pop_in_key_order() {
    // insertion order one way
    let mut pq = IndexedPQ::new();
    pq.insert(String::from("x"), 1);
    pq.insert(String::from("y"), 1);
    assert_eq!(pq.pop(), Some((String::from("x"), 1)));
    assert_eq!(pq.pop(), Some((String::from("y"), 1)));

    // and the other
    let mut pq = IndexedPQ::new();
    pq.insert(String::from("y"), 1);
    pq.insert(String::from("x"), 1);
    assert_eq!(pq.pop(), Some((String::from("x"), 1)));
    assert_eq!(pq.pop(), Some((String::from("y"), 1)));
}

#[test]
fn indexed_decrease_key_reorders_pops() {
    let mut heap = IndexedHeap::<i32, MinHeapType>::new();
    heap.push(10);
    heap.push(20);
    heap.push(15);
    heap.decrease_key(&15, 5);
    assert_eq!(heap.pop(), Some(5));
    assert_eq!(heap.pop(), Some(10));
    assert_eq!(heap.pop(), Some(20));
}

#[test]
fn non_improving_adjustments_change_nothing() {
    let mut heap = IndexedHeap::<i32, MinHeapType>::new();
    heap.push(10);
    heap.push(20);
    heap.push(15);
    // a decrease that does not improve, and an increase that does not worsen
    heap.decrease_key(&15, 40);
    heap.increase_key(&15, 3);
    assert_eq!(heap.len(), 3);
    assert_eq!(heap.pop(), Some(10));
    assert_eq!(heap.pop(), Some(15));
    assert_eq!(heap.pop(), Some(20));
}

#[test]
fn indexed_pq_reports_presence_not_change() {
    let mut pq = IndexedPQ::new();
    pq.insert(String::from("a"), 2);
    // the key exists, so the call succeeds although nothing improves
    assert!(pq.decrease_key(&String::from("a"), 9));
    assert_eq!(pq.pop(), Some((String::from("a"), 2)));
}

#[test]
fn mixed_scenario_keeps_sizes_consistent() {
    let mut heap = IndexedHeap::<i32, MinHeapType>::new();
    heap.push(4);
    heap.push(9);
    heap.push(1);
    heap.push(7);
    assert_eq!(heap.len(), 4);
    assert_eq!(heap.remove(&9), Some(9));
    assert_eq!(heap.len(), 3);
    assert_eq!(heap.remove(&2), None);
    assert_eq!(heap.len(), 3);
    heap.pop();
    assert_eq!(heap.len(), 2);
    assert_eq!(heap.get_index(&1), None);
    assert!(heap.get_index(&4).is_some() || heap.get_index(&7).is_some());
}

#[test]
fn generated_vectors_have_the_documented_shapes() {
    let random = generate_random_vec(50);
    assert_eq!(random.len(), 50);
    for v in &random {
        assert!(0 <= *v && *v < 100_000);
    }
    assert_eq!(generate_sorted_vec(5), vec![0, 1, 2, 3, 4]);
    assert_eq!(generate_reverse_sorted_vec(5), vec![5, 4, 3, 2, 1]);
}

#[test]
fn vertex_keeps_its_label() {
    let v = Vertex::new("hub");
    assert_eq!(v.label, String::from("hub"));
}

#[test]
fn string_ordering_is_lexicographic() {
    let mut heap = MinHeap::new();
    heap.push(String::from("pear"));
    heap.push(String::from("fig"));
    heap.push(String::from("figure"));
    heap.push(String::from(""));
    assert_eq!(heap.pop(), Some(String::from("")));
    assert_eq!(heap.pop(), Some(String::from("fig")));
    assert_eq!(heap.pop(), Some(String::from("figure")));
    assert_eq!(heap.pop(), Some(String::from("pear")));
}
