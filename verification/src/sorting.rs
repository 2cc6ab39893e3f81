pub mod graph_topological_sort;
pub mod heap_sort;
pub mod heap_sort_with_tracking;
pub mod insertion_sort;
pub mod insertion_sort_with_tracking;
pub mod merge_sort;
pub mod merge_sort_with_tracking;
pub mod quick_sort;
pub mod quick_sort_mod;
pub mod quick_sort_mod_with_tracking;
pub mod quick_sort_with_tracking;
pub mod sort_tracker;
