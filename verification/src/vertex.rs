use crate::edge::Edge;
use crate::index::Index;
use crate::keyset::{views, KeySet};
use vstd::prelude::*;
use vstd::std_specs::convert::FromSpecImpl;

verus! {

pub type Edges<T, Ix> = Vec<(Vertex<T, Ix>, Vertex<T, Ix>)>;

/// The two ways to walk along an edge: towards its source or towards its
/// reference.
#[derive(Clone, Copy, Debug)]
pub enum Direction {
    Source,
    Reference,
}

/// What a vertex knows of its place in a graph: its own key, the keys that
/// point to it and the keys that it points to.
#[verifier::ext_equal]
#[verifier::reject_recursive_types(K)]
pub struct Links<K> {
    pub index: K,
    pub sources: Set<K>,
    pub references: Set<K>,
}

impl<K> Links<K> {
    /// A vertex that no edge has touched yet.
    pub open spec fn fresh(index: K) -> Self {
        Links { index, sources: Set::empty(), references: Set::empty() }
    }

    /// The vertex after it has taken note of `edge`, given as (source,
    /// reference): where it is the edge's source it gains a reference, where
    /// it is the edge's reference it gains a source.
    pub open spec fn absorb(self, edge: (K, K)) -> Self {
        Links {
            index: self.index,
            sources: if edge.1 == self.index {
                self.sources.insert(edge.0)
            } else {
                self.sources
            },
            references: if edge.0 == self.index {
                self.references.insert(edge.1)
            } else {
                self.references
            },
        }
    }
}

/// A unit of graph data: a payload under a key, with the keys of its direct
/// neighbours in both directions.
#[derive(Debug)]
pub struct Vertex<T: Clone, Ix: Index> {
    data: T,
    sources: KeySet<Ix>,
    references: KeySet<Ix>,
    index: Ix,
}

impl<T: Clone, Ix: Index> View for Vertex<T, Ix> {
    type V = Links<Ix::V>;

    closed spec fn view(&self) -> Links<Ix::V> {
        Links { index: self.index@, sources: self.sources@, references: self.references@ }
    }
}

impl<T: Clone, Ix: Index> Vertex<T, Ix> {
    /// The payload that the vertex carries.
    pub closed spec fn payload(&self) -> T {
        self.data
    }

    /// A vertex names finitely many neighbours.
    pub proof fn lemma_neighbours_finite(&self)
        ensures
            self@.sources.finite(),
            self@.references.finite(),
    {
        vstd::seq_lib::seq_to_set_is_finite(self.sources.order());
        vstd::seq_lib::seq_to_set_is_finite(self.references.order());
    }

    /// A vertex with the given payload and key and no neighbours.
    pub fn new(data: T, index: Ix) -> (vertex: Vertex<T, Ix>)
        ensures
            vertex@ == Links::fresh(index@),
            vertex.payload() == data,
    {
        Vertex { data, sources: KeySet::new(), references: KeySet::new(), index }
    }

    fn add_source(&mut self, source: Ix)
        ensures
            final(self)@ == (Links {
                sources: old(self)@.sources.insert(source@),
                ..old(self)@
            }),
            final(self).payload() == old(self).payload(),
    {
        self.sources.insert(source);
    }

    fn add_reference(&mut self, reference: Ix)
        ensures
            final(self)@ == (Links {
                references: old(self)@.references.insert(reference@),
                ..old(self)@
            }),
            final(self).payload() == old(self).payload(),
    {
        self.references.insert(reference);
    }

    /// Takes note of `edge`: a no-op unless the edge touches this vertex.
    pub fn add_edge(&mut self, edge: &Edge<Ix>)
        ensures
            final(self)@ == old(self)@.absorb(edge@),
            final(self).payload() == old(self).payload(),
    {
        if edge.get_source().same_key(&self.index) {
            self.add_reference(edge.get_reference());
        }
        if edge.get_reference().same_key(&self.index) {
            self.add_source(edge.get_source());
        }
    }

    pub fn get_data(&self) -> (data: T)
        ensures
            cloned(self.payload(), data),
    {
        self.data.clone()
    }

    pub fn get_index(&self) -> (index: Ix)
        ensures
            index@ == self@.index,
    {
        self.index.clone_key()
    }

    /// The keys that point to this vertex, each once, in no promised order.
    pub fn get_sources(&self) -> (sources: Vec<&Ix>)
        ensures
            views(sources@).no_duplicates(),
            views(sources@).to_set() == self@.sources,
    {
        borrow_all(&self.sources)
    }

    /// The keys that this vertex points to, each once, in no promised order.
    pub fn get_references(&self) -> (references: Vec<&Ix>)
        ensures
            views(references@).no_duplicates(),
            views(references@).to_set() == self@.references,
    {
        borrow_all(&self.references)
    }

    pub fn is_reference(&self, target: &Ix) -> (held: bool)
        ensures
            held == self@.references.contains(target@),
    {
        self.references.contains(target)
    }

    pub fn is_source(&self, target: &Ix) -> (held: bool)
        ensures
            held == self@.sources.contains(target@),
    {
        self.sources.contains(target)
    }

    pub fn n_sources(&self) -> (n: usize)
        ensures
            n == self@.sources.len(),
    {
        self.sources.len()
    }

    pub fn n_references(&self) -> (n: usize)
        ensures
            n == self@.references.len(),
    {
        self.references.len()
    }
}

/// Borrows every key of a set, in the set's order.
fn borrow_all<Ix: Index>(set: &KeySet<Ix>) -> (keys: Vec<&Ix>)
    ensures
        views(keys@) == set.order(),
        set.order().no_duplicates(),
{
    let n = set.len();
    let mut keys: Vec<&Ix> = Vec::new();
    let mut i: usize = 0;
    while i < n
        invariant
            i <= n,
            n == set.order().len(),
            keys.len() == i,
            forall|j: int| 0 <= j < i ==> (#[trigger] keys@[j])@ == set.order()[j],
        decreases n - i,
    {
        keys.push(set.get(i));
        i += 1;
    }
    assert(views(keys@) =~= set.order());
    keys
}

impl<T: Clone, Ix: Index> Clone for Vertex<T, Ix> {
    fn clone(&self) -> (copy: Self)
        ensures
            copy@ == self@,
            cloned(self.payload(), copy.payload()),
    {
        Vertex {
            data: self.data.clone(),
            sources: self.sources.clone(),
            references: self.references.clone(),
            index: self.index.clone_key(),
        }
    }
}

/// The edge from the first vertex of a pair to the second.
impl<T: Clone, Ix: Index> From<(Vertex<T, Ix>, Vertex<T, Ix>)> for Edge<Ix> {
    fn from(item: (Vertex<T, Ix>, Vertex<T, Ix>)) -> (edge: Self)
        ensures
            edge@ == (item.0@.index, item.1@.index),
    {
        let source: Ix = item.0.get_index();
        let reference: Ix = item.1.get_index();
        Edge::new(source, reference)
    }
}

/// The conversion hands out copies of keys, which agree with the keys in
/// their views: what it returns is stated by `from` itself.
impl<T: Clone, Ix: Index> FromSpecImpl<(Vertex<T, Ix>, Vertex<T, Ix>)> for Edge<Ix> {
    open spec fn obeys_from_spec() -> bool {
        false
    }

    open spec fn from_spec(item: (Vertex<T, Ix>, Vertex<T, Ix>)) -> Self {
        arbitrary()
    }
}

/// The edge from the first vertex of a pair to the second.
impl<T: Clone, Ix: Index> From<&(&Vertex<T, Ix>, &Vertex<T, Ix>)> for Edge<Ix> {
    fn from(item: &(&Vertex<T, Ix>, &Vertex<T, Ix>)) -> (edge: Self)
        ensures
            edge@ == (item.0@.index, item.1@.index),
    {
        let source: Ix = item.0.get_index();
        let reference: Ix = item.1.get_index();
        Edge::new(source, reference)
    }
}

/// The conversion hands out copies of keys, which agree with the keys in
/// their views: what it returns is stated by `from` itself.
impl<T: Clone, Ix: Index> FromSpecImpl<&(&Vertex<T, Ix>, &Vertex<T, Ix>)> for Edge<Ix> {
    open spec fn obeys_from_spec() -> bool {
        false
    }

    open spec fn from_spec(item: &(&Vertex<T, Ix>, &Vertex<T, Ix>)) -> Self {
        arbitrary()
    }
}

/// The edge from the first vertex of a pair to the second.
impl<T: Clone, Ix: Index> From<(&mut Vertex<T, Ix>, &mut Vertex<T, Ix>)> for Edge<Ix> {
    fn from(item: (&mut Vertex<T, Ix>, &mut Vertex<T, Ix>)) -> (edge: Self)
        ensures
            edge@ == (old(item.0)@.index, old(item.1)@.index),
            *final(item.0) == *old(item.0),
            *final(item.1) == *old(item.1),
    {
        let source: Ix = item.0.get_index();
        let reference: Ix = item.1.get_index();
        Edge::new(source, reference)
    }
}

/// The conversion hands out copies of keys, which agree with the keys in
/// their views: what it returns is stated by `from` itself.
impl<T: Clone, Ix: Index> FromSpecImpl<(&mut Vertex<T, Ix>, &mut Vertex<T, Ix>)> for Edge<Ix> {
    open spec fn obeys_from_spec() -> bool {
        false
    }

    open spec fn from_spec(item: (&mut Vertex<T, Ix>, &mut Vertex<T, Ix>)) -> Self {
        arbitrary()
    }
}

/// A vertex beside its key.
impl<T: Clone, Ix: Index> From<Vertex<T, Ix>> for (Ix, Vertex<T, Ix>) {
    fn from(item: Vertex<T, Ix>) -> (entry: Self)
        ensures
            entry.0@ == item@.index,
            entry.1@ == item@,
            cloned(item.payload(), entry.1.payload()),
    {
        (item.get_index(), item.clone())
    }
}

/// The conversion hands out copies of keys, which agree with the keys in
/// their views: what it returns is stated by `from` itself.
impl<T: Clone, Ix: Index> FromSpecImpl<Vertex<T, Ix>> for (Ix, Vertex<T, Ix>) {
    open spec fn obeys_from_spec() -> bool {
        false
    }

    open spec fn from_spec(item: Vertex<T, Ix>) -> Self {
        arbitrary()
    }
}

} // verus!
