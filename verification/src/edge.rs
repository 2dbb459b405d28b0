use crate::index::Index;
use vstd::prelude::*;

verus! {

/// A directed arc between two keys: from `source` to `reference`.
///
/// An edge stands for its pair of keys, source first.
#[derive(Debug, Hash, PartialEq, Eq)]
pub struct Edge<Ix: Index> {
    source: Ix,
    reference: Ix,
}

impl<Ix: Index> View for Edge<Ix> {
    type V = (Ix::V, Ix::V);

    closed spec fn view(&self) -> (Ix::V, Ix::V) {
        (self.source@, self.reference@)
    }
}

impl<Ix: Index> Edge<Ix> {
    pub fn new(source: Ix, reference: Ix) -> (edge: Edge<Ix>)
        ensures
            edge@ == (source@, reference@),
    {
        Edge { source, reference }
    }

    pub fn get_reference(&self) -> (reference: Ix)
        ensures
            reference@ == self@.1,
    {
        self.reference.clone_key()
    }

    pub fn get_source(&self) -> (source: Ix)
        ensures
            source@ == self@.0,
    {
        self.source.clone_key()
    }
}

impl<Ix: Index> Clone for Edge<Ix> {
    fn clone(&self) -> (copy: Self)
        ensures
            copy@ == self@,
    {
        Edge { source: self.source.clone_key(), reference: self.reference.clone_key() }
    }
}

/// An edge is a key of the set of edges: two edges are the same when both
/// ends are.
impl<Ix: Index> Index for Edge<Ix> {
    fn same_key(&self, other: &Self) -> (same: bool) {
        self.source.same_key(&other.source) && self.reference.same_key(&other.reference)
    }

    fn clone_key(&self) -> (copy: Self) {
        self.clone()
    }
}

} // verus!
