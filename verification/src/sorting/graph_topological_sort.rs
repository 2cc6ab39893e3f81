//! The labelled vertex type that the graph routines build on.

use vstd::prelude::*;

verus! {

/// A graph vertex carrying its label.
#[derive(Clone)]
pub struct Vertex {
    pub label: String,
}

impl Vertex {
    /// Creates a vertex with the given label.
    pub fn new(label: &str) -> (v: Vertex)
        ensures
            v.label@ == label@,
    {
        Vertex { label: label.to_owned() }
    }
}

} // verus!
