//! Priority-ordering data structures: a d-ary heap core with pluggable
//! ordering policies, index-tracked heaps whose key adjustments reheapify
//! along a single path, priority queues with stable tie-breaking, and the
//! supporting comparison machinery, sorting and searching routines.

pub mod arrays;
pub mod heaps;
pub mod search;
pub mod order;
pub mod seq_facts;
pub mod sorting;
pub mod util;
