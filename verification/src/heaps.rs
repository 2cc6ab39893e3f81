pub mod heap;
pub mod indexed_heap;
pub mod indexed_priority_queue;
pub mod priority_queue;
