use crate::edge::Edge;
use crate::index::Index;
use crate::keyset::{views, KeySet};
use crate::shape::{
    acyclic, far_end, lemma_settled_reverse, lemma_walks_after_step, lemma_walks_first_step,
    lemma_walks_self, near_end, reach_set, reached_from, reaches, settled, steps, topological,
    walks, Shape,
};
use crate::vertex::{Direction, Links, Vertex};
use vstd::prelude::*;

verus! {

/// What a check on the graph can object to.
#[derive(Debug)]
pub enum GraphError {
    WouldCycle,
    NonExistentSource,
    NonExistentReference,
    NonExistentVertex,
    NoEdges,
    Other(String),
}

/// What a check on the graph hands back when it has no objection.
#[derive(Debug)]
pub enum GraphOk<Ix: Index> {
    Done,
    VecRes(Vec<Ix>),
}

pub type GraphResult<Ix> = Result<GraphOk<Ix>, GraphError>;

/// What the vertices of a slice know of their places, position by position.
pub open spec fn places<T: Clone, Ix: Index>(vertices: Seq<Vertex<T, Ix>>) -> Seq<Links<Ix::V>> {
    Seq::new(vertices.len(), |i: int| vertices[i]@)
}

/// The two ends of each submitted edge, source first, position by position.
pub open spec fn ends<T: Clone, Ix: Index>(
    edges: Seq<(&Vertex<T, Ix>, &Vertex<T, Ix>)>,
) -> Seq<(Links<Ix::V>, Links<Ix::V>)> {
    Seq::new(edges.len(), |i: int| (edges[i].0@, edges[i].1@))
}

/// Whether `payload` is a copy of the payload of that end of `edge` which
/// has the key `key`.
pub open spec fn copied_from<T: Clone, Ix: Index>(
    edge: (&Vertex<T, Ix>, &Vertex<T, Ix>),
    key: Ix::V,
    payload: T,
) -> bool {
    ||| edge.0@.index == key && cloned(edge.0.payload(), payload)
    ||| edge.1@.index == key && cloned(edge.1.payload(), payload)
}

/// A directed acyclic graph of vertices that carry a payload of type `T`
/// under keys of type `Ix`.
///
/// The graph only grows. It accepts an edge only if the edge closes no
/// cycle, and it keeps a list of its roots (vertices without a source) and
/// of its leaves (vertices without a reference).
#[derive(Debug)]
pub struct BullDag<T: Clone, Ix: Index> {
    roots: KeySet<Ix>,
    leaves: KeySet<Ix>,
    keys: KeySet<Ix>,
    vertices: Vec<Vertex<T, Ix>>,
    edges: KeySet<Edge<Ix>>,
}

impl<T: Clone, Ix: Index> View for BullDag<T, Ix> {
    type V = Shape<Ix::V>;

    closed spec fn view(&self) -> Shape<Ix::V> {
        Shape {
            vertices: Map::new(
                |k: Ix::V| self.keys@.contains(k),
                |k: Ix::V| self.vertices[self.slot(k)]@,
            ),
            edges: self.edges@,
            roots: self.roots@,
            leaves: self.leaves@,
        }
    }
}

impl<T: Clone, Ix: Index> BullDag<T, Ix> {
    /// The place at which the vertex under `key` is kept.
    spec fn slot(&self, key: Ix::V) -> int {
        self.keys.order().index_of(key)
    }

    /// Whether every key has its vertex: the keys are kept once each, and
    /// the vertex of a key stands at the key's place.
    pub closed spec fn aligned(&self) -> bool {
        &&& self.keys.order().no_duplicates()
        &&& self.keys.order().len() == self.vertices.len()
    }

    /// Whether the graph is in a state that its own operations leave it in.
    pub open spec fn wf(&self) -> bool {
        self.aligned() && self@.sound()
    }

    /// The payload of the vertex under `key`.
    pub closed spec fn payload(&self, key: Ix::V) -> T {
        self.vertices[self.slot(key)].payload()
    }

    proof fn lemma_slot(&self, i: int)
        requires
            self.aligned(),
            0 <= i < self.vertices.len(),
        ensures
            self.slot(self.keys.order()[i]) == i,
            self@.keys().contains(self.keys.order()[i]),
            self@.vertices[self.keys.order()[i]] == self.vertices[i]@,
            self.payload(self.keys.order()[i]) == self.vertices[i].payload(),
    {
        let order = self.keys.order();
        assert(order.contains(order[i]));
    }

    proof fn lemma_slot_of(&self, key: Ix::V)
        requires
            self.aligned(),
            self@.keys().contains(key),
        ensures
            0 <= self.slot(key) < self.vertices.len(),
            self.keys.order()[self.slot(key)] == key,
    {
        assert(self.keys.order().contains(key));
    }

    /// An empty graph.
    pub fn new() -> (graph: BullDag<T, Ix>)
        ensures
            graph.wf(),
            graph@ == Shape::<Ix::V>::empty(),
    {
        let graph = BullDag {
            roots: KeySet::new(),
            leaves: KeySet::new(),
            keys: KeySet::new(),
            vertices: Vec::new(),
            edges: KeySet::new(),
        };
        proof {
            assert(graph@.vertices =~= Map::<Ix::V, Links<Ix::V>>::empty());
            assert(graph@ =~= Shape::<Ix::V>::empty());
            Shape::<Ix::V>::lemma_empty_sound();
        }
        graph
    }

    /// The number of vertices.
    pub fn len(&self) -> (n: usize)
        ensures
            n == self@.keys().len(),
    {
        assert(self@.keys() =~= self.keys@);
        self.keys.len()
    }

    pub fn is_empty(&self) -> (empty: bool)
        ensures
            empty == (self@.keys().len() == 0),
            empty == self@.keys().is_empty(),
    {
        assert(self@.keys() =~= self.keys@);
        let _ = self.keys.is_empty();
        self.len() == 0
    }

    /// The number of edges.
    pub fn n_edges(&self) -> (n: usize)
        ensures
            n == self@.edges.len(),
    {
        self.edges.len()
    }

    /// The keys under which the graph holds a vertex.
    pub fn get_keys(&self) -> (keys: KeySet<Ix>)
        ensures
            keys@ == self@.keys(),
    {
        assert(self@.keys() =~= self.keys@);
        self.keys.clone()
    }

    /// The edges that the graph has accepted.
    pub fn get_edges(&self) -> (edges: KeySet<Edge<Ix>>)
        ensures
            edges@ == self@.edges,
    {
        self.edges.clone()
    }

    /// The roots: the keys listed as having no source.
    pub fn get_roots(&self) -> (roots: KeySet<Ix>)
        ensures
            roots@ == self@.roots,
    {
        self.roots.clone()
    }

    pub fn n_roots(&self) -> (n: usize)
        ensures
            n == self@.roots.len(),
    {
        self.roots.len()
    }

    /// The leaves: the keys listed as having no reference.
    pub fn get_leaves(&self) -> (leaves: KeySet<Ix>)
        ensures
            leaves@ == self@.leaves,
    {
        self.leaves.clone()
    }

    pub fn n_leaves(&self) -> (n: usize)
        ensures
            n == self@.leaves.len(),
    {
        self.leaves.len()
    }

    /// The vertex under `target`, if the graph holds one.
    pub fn get_vertex(&self, target: Ix) -> (found: Option<&Vertex<T, Ix>>)
        requires
            self.wf(),
        ensures
            match found {
                Some(vertex) => {
                    &&& self@.keys().contains(target@)
                    &&& vertex@ == self@.vertices[target@]
                    &&& vertex.payload() == self.payload(target@)
                },
                None => !self@.keys().contains(target@),
            },
    {
        match self.keys.position(&target) {
            Some(i) => {
                proof {
                    self.lemma_slot(i as int);
                }
                Some(&self.vertices[i])
            },
            None => None,
        }
    }

    /// A handle on the vertex under `target`, if the graph holds one.
    ///
    /// The graph trusts the holder of the handle: it finds the vertex under
    /// `target` as the holder leaves it. A holder who changes the vertex's
    /// key, or neighbours without the edges to match, leaves a graph that is
    /// no longer well formed or consistent.
    pub fn get_vertex_mut(&mut self, target: Ix) -> (found: Option<&mut Vertex<T, Ix>>)
        requires
            old(self).wf(),
        ensures
            match found {
                Some(vertex) => {
                    &&& old(self)@.keys().contains(target@)
                    &&& vertex@ == old(self)@.vertices[target@]
                    &&& vertex.payload() == old(self).payload(target@)
                    &&& final(self).aligned()
                    &&& final(self)@ == (Shape {
                        vertices: old(self)@.vertices.insert(target@, final(vertex)@),
                        ..old(self)@
                    })
                    &&& final(self).payload(target@) == final(vertex).payload()
                    &&& forall|k: Ix::V|
                        old(self)@.keys().contains(k) && k != target@ ==> final(self).payload(k)
                            == old(self).payload(k)
                    &&& final(vertex)@.index == target@ ==> final(self).wf()
                },
                None => !old(self)@.keys().contains(target@) && *final(self) == *old(self),
            },
    {
        match self.keys.position(&target) {
            Some(i) => {
                proof {
                    self.lemma_slot(i as int);
                }
                Some(&mut self.vertices[i])
            },
            None => None,
        }
    }

    /// Lists `index` as a root.
    fn add_root(&mut self, index: Ix)
        ensures
            final(self).roots@ == old(self).roots@.insert(index@),
            final(self).leaves == old(self).leaves,
            final(self).keys == old(self).keys,
            final(self).vertices == old(self).vertices,
            final(self).edges == old(self).edges,
    {
        self.roots.insert(index);
    }

    /// Lists `index` as a leaf.
    fn add_leaf(&mut self, index: Ix)
        ensures
            final(self).leaves@ == old(self).leaves@.insert(index@),
            final(self).roots == old(self).roots,
            final(self).keys == old(self).keys,
            final(self).vertices == old(self).vertices,
            final(self).edges == old(self).edges,
    {
        self.leaves.insert(index);
    }

    /// Strikes `index` from the roots.
    fn drop_root(&mut self, index: &Ix)
        ensures
            final(self).roots@ == old(self).roots@.remove(index@),
            final(self).leaves == old(self).leaves,
            final(self).keys == old(self).keys,
            final(self).vertices == old(self).vertices,
            final(self).edges == old(self).edges,
    {
        self.roots.remove(index);
    }

    /// Strikes `index` from the leaves.
    fn drop_leaf(&mut self, index: &Ix)
        ensures
            final(self).leaves@ == old(self).leaves@.remove(index@),
            final(self).roots == old(self).roots,
            final(self).keys == old(self).keys,
            final(self).vertices == old(self).vertices,
            final(self).edges == old(self).edges,
    {
        self.leaves.remove(index);
    }

    /// Strikes `index` from the roots if its vertex names a source.
    fn clean_root(&mut self, index: Ix)
        requires
            old(self).wf(),
        ensures
            final(self).roots@ == if old(self)@.roots.contains(index@)
                && old(self)@.keys().contains(index@)
                && !old(self)@.vertices[index@].sources.is_empty() {
                old(self).roots@.remove(index@)
            } else {
                old(self).roots@
            },
            final(self).leaves == old(self).leaves,
            final(self).keys == old(self).keys,
            final(self).vertices == old(self).vertices,
            final(self).edges == old(self).edges,
    {
        if self.roots.contains(&index) {
            if let Some(vtx) = self.get_vertex(index.clone_key()) {
                proof {
                    vtx.lemma_neighbours_finite();
                    lemma_count_zero(vtx@.sources);
                }
                if vtx.n_sources() != 0 {
                    self.roots.remove(&index);
                }
            }
        }
    }

    /// Strikes `index` from the leaves if its vertex names a reference.
    fn clean_leaf(&mut self, index: Ix)
        requires
            old(self).wf(),
        ensures
            final(self).leaves@ == if old(self)@.leaves.contains(index@)
                && old(self)@.keys().contains(index@)
                && !old(self)@.vertices[index@].references.is_empty() {
                old(self).leaves@.remove(index@)
            } else {
                old(self).leaves@
            },
            final(self).roots == old(self).roots,
            final(self).keys == old(self).keys,
            final(self).vertices == old(self).vertices,
            final(self).edges == old(self).edges,
    {
        if self.leaves.contains(&index) {
            if let Some(vtx) = self.get_vertex(index.clone_key()) {
                proof {
                    vtx.lemma_neighbours_finite();
                    lemma_count_zero(vtx@.references);
                }
                if vtx.n_references() != 0 {
                    self.leaves.remove(&index);
                }
            }
        }
    }

    /// Puts `vertex` under its key, in place of the vertex that the key had,
    /// and lists the key as a root exactly if the vertex names no source and
    /// as a leaf exactly if it names no reference.
    fn put(&mut self, vertex: Vertex<T, Ix>)
        requires
            old(self).aligned(),
        ensures
            final(self).aligned(),
            final(self)@ == old(self)@.with_vertex(vertex@),
            final(self).payload(vertex@.index) == vertex.payload(),
            forall|k: Ix::V|
                old(self)@.keys().contains(k) && k != vertex@.index ==> final(self).payload(k)
                    == old(self).payload(k),
    {
        proof {
            vertex.lemma_neighbours_finite();
            lemma_count_zero(vertex@.sources);
            lemma_count_zero(vertex@.references);
        }
        if vertex.n_sources() == 0 {
            self.add_root(vertex.get_index());
        } else {
            self.drop_root(&vertex.get_index());
        }
        if vertex.n_references() == 0 {
            self.add_leaf(vertex.get_index());
        } else {
            self.drop_leaf(&vertex.get_index());
        }
        let key = vertex.get_index();
        let ghost before = *self;
        match self.keys.position(&key) {
            Some(i) => {
                self.vertices[i] = vertex;
                proof {
                    assert forall|k: Ix::V| before@.keys().contains(k) implies
                        self.vertices[self.slot(k)] == (if k == key@ {
                        vertex
                    } else {
                        before.vertices[before.slot(k)]
                    }) by {
                        before.lemma_slot_of(k);
                        before.lemma_slot(i as int);
                    }
                    assert(self@.vertices =~= old(self)@.vertices.insert(key@, vertex@));
                    assert forall|k: Ix::V|
                        before@.keys().contains(k) && k != key@ implies self.payload(k)
                        == before.payload(k) by {
                        before.lemma_slot_of(k);
                        before.lemma_slot(i as int);
                    }
                }
            },
            None => {
                let _ = self.keys.len();
                self.keys.insert(key);
                self.vertices.push(vertex);
                proof {
                    let n = before.vertices.len() as int;
                    self.lemma_slot(n);
                    assert forall|k: Ix::V| before@.keys().contains(k) implies self.slot(k)
                        == before.slot(k) by {
                        before.lemma_slot_of(k);
                        self.lemma_slot(before.slot(k));
                    }
                    assert(self@.vertices =~= old(self)@.vertices.insert(key@, vertex@));
                    assert forall|k: Ix::V|
                        before@.keys().contains(k) && k != key@ implies self.payload(k)
                        == before.payload(k) by {
                        before.lemma_slot_of(k);
                        self.lemma_slot(before.slot(k));
                    }
                }
            },
        }
        assert forall|k: Ix::V|
            old(self)@.keys().contains(k) && k != vertex@.index implies self.payload(k) == old(
            self,
        ).payload(k) by {
            assert(before@.keys().contains(k));
            assert(self.payload(k) == before.payload(k));
        }
    }

    /// Puts a copy of `vertex` under its key, in place of the vertex that the
    /// key had. Afterwards the key is listed as a root exactly if the vertex
    /// names no source, and as a leaf exactly if it names no reference,
    /// whatever lists the key was on before.
    pub fn add_vertex(&mut self, vertex: &Vertex<T, Ix>)
        requires
            old(self).wf(),
        ensures
            final(self).wf(),
            final(self)@ == old(self)@.with_vertex(vertex@),
            final(self)@.roots.contains(vertex@.index) <==> vertex@.sources.is_empty(),
            final(self)@.leaves.contains(vertex@.index) <==> vertex@.references.is_empty(),
            old(self)@.consistent() ==> final(self)@.consistent(),
            cloned(vertex.payload(), final(self).payload(vertex@.index)),
            forall|k: Ix::V|
                old(self)@.keys().contains(k) && k != vertex@.index ==> final(self).payload(k)
                    == old(self).payload(k),
    {
        proof {
            self@.lemma_with_vertex_sound(vertex@);
            if self@.consistent() {
                self@.lemma_with_vertex_consistent(vertex@);
            }
        }
        self.put(vertex.clone());
    }

    /// The keys that a walk from `target` in the given direction arrives at,
    /// `target` itself among them: all its ancestors for `Source`, all its
    /// descendants for `Reference`. Each key stands once, after every key
    /// that it walks to; `target` stands last.
    pub fn trace(&self, target: &Vertex<T, Ix>, direction: Direction) -> (stack: Vec<Ix>)
        requires
            self.wf(),
        ensures
            settled(self@.edges, direction, views(stack@)),
            views(stack@).to_set() == reach_set(self@.edges, direction, target@.index),
            stack.len() > 0,
            views(stack@).last() == target@.index,
    {
        let mut stack: Vec<Ix> = Vec::new();
        assert(views(stack@) =~= Seq::<Ix::V>::empty());
        match direction {
            Direction::Source => {
                self.get_sources(target, &mut stack);
            },
            Direction::Reference => {
                self.get_references(target, &mut stack);
            },
        }
        proof {
            let record = views(stack@);
            assert(record.to_set() =~= reach_set(self@.edges, direction, target@.index));
            lemma_walks_self(self@.edges, direction, target@.index);
            assert(record.to_set().contains(target@.index));
            let at = choose|at: int| 0 <= at < record.len() && record[at] == target@.index;
            if at < record.len() - 1 {
                assert(record.to_set().contains(record.last()));
                crate::shape::lemma_settled_order(
                    self@.edges,
                    direction,
                    record,
                    at,
                    record.len() - 1,
                );
            }
        }
        stack
    }

    /// Adds to `stack` the ancestors of `target` and `target` itself.
    fn get_sources(&self, target: &Vertex<T, Ix>, stack: &mut Vec<Ix>)
        requires
            self.wf(),
            settled(self@.edges, Direction::Source, views(old(stack)@)),
        ensures
            settled(self@.edges, Direction::Source, views(final(stack)@)),
            views(old(stack)@).is_prefix_of(views(final(stack)@)),
            views(final(stack)@).to_set() == views(old(stack)@).to_set().union(
                reach_set(self@.edges, Direction::Source, target@.index),
            ),
    {
        self.walk(target, Direction::Source, stack);
    }

    /// Adds to `stack` the descendants of `target` and `target` itself.
    fn get_references(&self, target: &Vertex<T, Ix>, stack: &mut Vec<Ix>)
        requires
            self.wf(),
            settled(self@.edges, Direction::Reference, views(old(stack)@)),
        ensures
            settled(self@.edges, Direction::Reference, views(final(stack)@)),
            views(old(stack)@).is_prefix_of(views(final(stack)@)),
            views(final(stack)@).to_set() == views(old(stack)@).to_set().union(
                reach_set(self@.edges, Direction::Reference, target@.index),
            ),
    {
        self.walk(target, Direction::Reference, stack);
    }

    /// Walks from `target` in the given direction, depth first, and adds to
    /// `stack` each key that it arrives at and that the stack does not hold
    /// yet, once the keys beyond it have been added; `target` comes last.
    fn walk(&self, target: &Vertex<T, Ix>, direction: Direction, stack: &mut Vec<Ix>)
        requires
            self.wf(),
            settled(self@.edges, direction, views(old(stack)@)),
        ensures
            settled(self@.edges, direction, views(final(stack)@)),
            views(old(stack)@).is_prefix_of(views(final(stack)@)),
            views(final(stack)@).to_set() == views(old(stack)@).to_set().union(
                reach_set(self@.edges, direction, target@.index),
            ),
        decreases reach_set(self@.edges, direction, target@.index).len(),
    {
        let key = target.get_index();
        let ghost entry = views(stack@);
        let ghost arcs = self@.edges;
        let n = self.edges.len();
        let mut i: usize = 0;
        while i < n
            invariant
                self.wf(),
                arcs == self@.edges,
                i <= n,
                n == self.edges.order().len(),
                key@ == target@.index,
                settled(arcs, direction, views(stack@)),
                entry.is_prefix_of(views(stack@)),
                forall|k: Ix::V|
                    views(stack@).contains(k) ==> entry.contains(k) || walks(
                        arcs,
                        direction,
                        key@,
                        k,
                    ),
                forall|j: int, k: Ix::V|
                    0 <= j < i && near_end(self.edges.order()[j], direction) == key@
                        && #[trigger] walks(
                        arcs,
                        direction,
                        far_end(self.edges.order()[j], direction),
                        k,
                    ) ==> views(stack@).contains(k),
            decreases n - i,
        {
            let edge = self.edges.get(i);
            let near = match direction {
                Direction::Source => edge.get_reference(),
                Direction::Reference => edge.get_source(),
            };
            let ghost before = views(stack@);
            if near.same_key(&key) {
                let far = match direction {
                    Direction::Source => edge.get_source(),
                    Direction::Reference => edge.get_reference(),
                };
                proof {
                    assert(self.edges.order().contains(self.edges.order()[i as int]));
                    assert(arcs.contains(edge@));
                    assert(steps(arcs, direction, key@, far@));
                }
                if let Some(next) = self.get_vertex(far) {
                    proof {
                        self@.lemma_walk_shrinks(direction, key@, next@.index);
                    }
                    self.walk(next, direction, stack);
                    proof {
                        let after = views(stack@);
                        assert forall|k: Ix::V| after.contains(k) implies entry.contains(k)
                            || walks(arcs, direction, key@, k) by {
                            assert(after.to_set().contains(k));
                            if !before.contains(k) {
                                lemma_walks_after_step(arcs, direction, key@, next@.index, k);
                            }
                        }
                        assert forall|k: Ix::V| before.contains(k) implies after.contains(k) by {
                            assert(after.to_set().contains(k));
                        }
                        assert forall|k: Ix::V|
                            walks(arcs, direction, next@.index, k) implies after.contains(k) by {
                            assert(after.to_set().contains(k));
                        }
                    }
                }
            }
            i += 1;
        }
        let ghost before = views(stack@);
        proof {
            // Every key that the target walks to is on the stack or is the
            // target itself.
            assert forall|k: Ix::V|
                walks(arcs, direction, key@, k) && k != key@ implies before.contains(k) by {
                let next = lemma_walks_first_step(arcs, direction, key@, k);
                let arc = match direction {
                    Direction::Source => (next, key@),
                    Direction::Reference => (key@, next),
                };
                assert(self.edges.order().contains(arc));
                let j = choose|j: int|
                    0 <= j < self.edges.order().len() && self.edges.order()[j] == arc;
                assert(far_end(self.edges.order()[j], direction) == next);
            }
            lemma_walks_self(arcs, direction, key@);
        }
        if !holds(stack, &key) {
            stack.push(key);
            proof {
                let after = views(stack@);
                assert(after =~= before.push(key@));
                crate::keyset::lemma_push_to_set(before, key@);
                assert forall|i: int, k: Ix::V|
                    0 <= i < after.len() && #[trigger] walks(arcs, direction, after[i], k) implies
                        after.take(i + 1).contains(k) by {
                    if i < before.len() {
                        assert(after.take(i + 1) =~= before.take(i + 1));
                        assert(after[i] == before[i]);
                    } else {
                        assert(after.take(i + 1) =~= after);
                        assert(after[i] == key@);
                        if k != key@ {
                            assert(before.contains(k));
                            let at = choose|at: int| 0 <= at < before.len() && before[at] == k;
                            assert(after[at] == k);
                        } else {
                            assert(after[before.len() as int] == k);
                        }
                    }
                }
            }
        }
        proof {
            let after = views(stack@);
            assert(after.to_set() =~= entry.to_set().union(reach_set(arcs, direction, key@))) by {
                assert forall|k: Ix::V| after.to_set().contains(k) <==> entry.to_set().union(
                    reach_set(arcs, direction, key@),
                ).contains(k) by {
                    if entry.contains(k) {
                        let at = choose|at: int| 0 <= at < entry.len() && entry[at] == k;
                        assert(after[at] == k);
                    }
                    if before.contains(k) {
                        let at = choose|at: int| 0 <= at < before.len() && before[at] == k;
                        assert(after[at] == k);
                    }
                    if after.contains(k) && !before.contains(k) {
                        let at = choose|at: int| 0 <= at < after.len() && after[at] == k;
                        assert(k == key@);
                    }
                }
            }
        }
    }

    /// Whether the graph holds vertices but lists no root.
    fn auto_source_cycle(&self) -> (lost: bool)
        ensures
            lost == (self@.roots.is_empty() && !self@.keys().is_empty()),
    {
        proof {
            vstd::seq_lib::seq_to_set_is_finite(self.roots.order());
            lemma_count_zero(self@.roots);
        }
        self.n_roots() == 0 && !self.is_empty()
    }

    /// Whether the graph holds vertices but lists no leaf.
    fn auto_ref_cycle(&self) -> (lost: bool)
        ensures
            lost == (self@.leaves.is_empty() && !self@.keys().is_empty()),
    {
        proof {
            vstd::seq_lib::seq_to_set_is_finite(self.leaves.order());
            lemma_count_zero(self@.leaves);
        }
        self.n_leaves() == 0 && !self.is_empty()
    }

    /// Checks whether the graph admits the edge from the first vertex of
    /// `edge` to the second: `WouldCycle` if it does not.
    pub fn check_cycles(&self, edge: &(&Vertex<T, Ix>, &Vertex<T, Ix>)) -> (verdict: GraphResult<
        Ix,
    >)
        requires
            self.wf(),
        ensures
            match verdict {
                Ok(GraphOk::Done) => self@.admits(edge.0@.index, edge.1@.index),
                Err(GraphError::WouldCycle) => !self@.admits(edge.0@.index, edge.1@.index),
                _ => false,
            },
    {
        if self.auto_source_cycle() || self.auto_ref_cycle() {
            return Err(GraphError::WouldCycle);
        }
        let source_trace = self.trace(edge.0, Direction::Source);
        if holds(&source_trace, &edge.1.get_index()) {
            assert(views(source_trace@).to_set().contains(edge.1@.index));
            return Err(GraphError::WouldCycle);
        }
        assert(!views(source_trace@).to_set().contains(edge.1@.index));
        let ref_trace = self.trace(edge.1, Direction::Reference);
        if holds(&ref_trace, &edge.0.get_index()) {
            assert(views(ref_trace@).to_set().contains(edge.0@.index));
            return Err(GraphError::WouldCycle);
        }
        Ok(GraphOk::Done)
    }

    /// Lets the vertex at place `i` take note of `edge`, and lists its key as
    /// a root or as a leaf where the vertex then names no source or no
    /// reference. The key is struck from no list here.
    fn absorb_at(&mut self, i: usize, edge: &Edge<Ix>)
        requires
            old(self).wf(),
            i < old(self).vertices.len(),
        ensures
            final(self).wf(),
            final(self).keys == old(self).keys,
            ({
                let key = old(self).keys.order()[i as int];
                let noted = old(self)@.vertices[key].absorb(edge@);
                final(self)@ == (Shape {
                    vertices: old(self)@.vertices.insert(key, noted),
                    edges: old(self)@.edges,
                    roots: if noted.sources.is_empty() {
                        old(self)@.roots.insert(key)
                    } else {
                        old(self)@.roots
                    },
                    leaves: if noted.references.is_empty() {
                        old(self)@.leaves.insert(key)
                    } else {
                        old(self)@.leaves
                    },
                })
            }),
            forall|k: Ix::V|
                old(self)@.keys().contains(k) ==> final(self).payload(k) == old(self).payload(k),
    {
        let ghost before = *self;
        let ghost key = self.keys.order()[i as int];
        proof {
            before.lemma_slot(i as int);
        }
        self.vertices[i].add_edge(edge);
        let ghost noted = *self;
        proof {
            noted.vertices[i as int].lemma_neighbours_finite();
            lemma_count_zero(noted.vertices[i as int]@.sources);
            lemma_count_zero(noted.vertices[i as int]@.references);
        }
        if self.vertices[i].n_sources() == 0 {
            let index = self.vertices[i].get_index();
            self.add_root(index);
        }
        if self.vertices[i].n_references() == 0 {
            let index = self.vertices[i].get_index();
            self.add_leaf(index);
        }
        proof {
            assert forall|k: Ix::V| before@.keys().contains(k) implies self.vertices[self.slot(k)]
                == (if k == key {
                noted.vertices[i as int]
            } else {
                before.vertices[before.slot(k)]
            }) by {
                before.lemma_slot_of(k);
            }
            assert(self@.vertices =~= before@.vertices.insert(
                key,
                before@.vertices[key].absorb(edge@),
            ));
            assert forall|k: Ix::V| before@.keys().contains(k) implies self.payload(k)
                == before.payload(k) by {
                before.lemma_slot_of(k);
            }
        }
    }

    /// Submits the edge from the first vertex of `edge` to the second.
    ///
    /// Where the graph does not admit the edge (it would close a cycle, or
    /// the graph holds vertices but lists no root or no leaf), nothing
    /// changes and nothing tells the caller. Otherwise the edge joins the
    /// graph: a vertex that the graph already holds under the key of an end
    /// takes note of the edge; a missing end is put in as a copy of the
    /// submitted vertex, which has taken note of the edge.
    pub fn add_edge(&mut self, edge: &(&Vertex<T, Ix>, &Vertex<T, Ix>))
        requires
            old(self).wf(),
        ensures
            final(self).wf(),
            final(self)@ == old(self)@.with_edge(edge.0@, edge.1@),
            acyclic(final(self)@.edges),
            old(self)@.consistent() ==> final(self)@.consistent(),
            forall|k: Ix::V|
                old(self)@.keys().contains(k) ==> final(self).payload(k) == old(self).payload(k),
            old(self)@.admits(edge.0@.index, edge.1@.index) && !old(self)@.keys().contains(
                edge.0@.index,
            ) ==> cloned(edge.0.payload(), final(self).payload(edge.0@.index)),
            old(self)@.admits(edge.0@.index, edge.1@.index) && !old(self)@.keys().contains(
                edge.1@.index,
            ) ==> cloned(edge.1.payload(), final(self).payload(edge.1@.index)),
    {
        let e: Edge<Ix> = Edge::from(edge);
        let ghost start = *self;
        let ghost arc = (edge.0@.index, edge.1@.index);
        proof {
            start@.lemma_with_edge_sound(edge.0@, edge.1@);
            if start@.consistent() {
                start@.lemma_with_edge_consistent(edge.0@, edge.1@);
            }
        }
        if self.check_cycles(edge).is_ok() {
            proof {
                start@.lemma_admits_no_loop(arc.0);
            }
            // The source takes note of its new reference.
            match self.keys.position(&e.get_source()) {
                Some(i) => {
                    proof {
                        start.lemma_slot(i as int);
                    }
                    self.absorb_at(i, &e);
                    self.clean_leaf(e.get_source());
                },
                None => {
                    let mut source = edge.0.clone();
                    source.add_edge(&e);
                    self.put(source);
                },
            }
            let ghost middle = *self;
            let ghost from = start@.stored(edge.0@).absorb(arc);
            proof {
                assert(from.references.contains(arc.1));
                assert(middle@.vertices =~= start@.vertices.insert(arc.0, from));
                assert(middle@.leaves =~= start@.leaves.remove(arc.0));
                assert(middle@.edges == start@.edges);
                assert(middle@.roots =~= if from.sources.is_empty() {
                    start@.roots.insert(arc.0)
                } else {
                    start@.roots
                });
                assert(middle@.sound());
                assert(middle@.stored(edge.1@) == start@.stored(edge.1@));
                assert forall|k: Ix::V| start@.keys().contains(k) implies middle.payload(k)
                    == start.payload(k) by {}
            }
            // The reference takes note of its new source.
            match self.keys.position(&e.get_reference()) {
                Some(i) => {
                    proof {
                        middle.lemma_slot(i as int);
                    }
                    self.absorb_at(i, &e);
                    self.clean_root(e.get_reference());
                },
                None => {
                    let mut reference = edge.1.clone();
                    reference.add_edge(&e);
                    self.put(reference);
                },
            }
            let ghost to = start@.stored(edge.1@).absorb(arc);
            proof {
                assert(to.sources.contains(arc.0));
                assert(self@.vertices =~= middle@.vertices.insert(arc.1, to));
                assert(self@.roots =~= middle@.roots.remove(arc.1));
                assert(self@.leaves =~= if to.references.is_empty() {
                    middle@.leaves.insert(arc.1)
                } else {
                    middle@.leaves
                });
                assert forall|k: Ix::V|
                    middle@.keys().contains(k) && k != arc.1 implies self.payload(k)
                    == middle.payload(k) by {}
                assert(self@.vertices =~= start@.vertices.insert(arc.0, from).insert(arc.1, to));
                assert(self@.roots =~= start@.with_edge(edge.0@, edge.1@).roots);
                assert(self@.leaves =~= start@.with_edge(edge.0@, edge.1@).leaves);
            }
            self.edges.insert(e);
            proof {
                assert(self@ =~= start@.with_edge(edge.0@, edge.1@));
            }
        }
    }

    /// Submits the edges one after the other, as `add_edge` does. An edge
    /// that the graph does not admit when its turn comes is passed over.
    pub fn extend_from_edges(&mut self, edges: &[(&Vertex<T, Ix>, &Vertex<T, Ix>)])
        requires
            old(self).wf(),
        ensures
            final(self).wf(),
            final(self)@ == old(self)@.with_edges(ends(edges@)),
            acyclic(final(self)@.edges),
            old(self)@.consistent() ==> final(self)@.consistent(),
            forall|k: Ix::V|
                old(self)@.keys().contains(k) ==> final(self).payload(k) == old(self).payload(k),
            forall|k: Ix::V|
                final(self)@.keys().contains(k) && !old(self)@.keys().contains(k) ==> exists|
                    j: int,
                |
                    old(self)@.enters_at(ends(edges@), j, k) && #[trigger] copied_from(
                        edges@[j],
                        k,
                        final(self).payload(k),
                    ),
    {
        let ghost start = *self;
        let ghost pairs = ends(edges@);
        proof {
            if start@.consistent() {
                start@.lemma_with_edges_consistent(pairs);
            }
        }
        let mut i: usize = 0;
        while i < edges.len()
            invariant
                i <= edges.len(),
                pairs == ends(edges@),
                self.wf(),
                self@ == start@.with_edges(pairs.take(i as int)),
                forall|k: Ix::V| start@.keys().contains(k) ==> self@.keys().contains(k),
                forall|k: Ix::V|
                    start@.keys().contains(k) ==> self.payload(k) == start.payload(k),
                forall|k: Ix::V|
                    self@.keys().contains(k) && !start@.keys().contains(k) ==> exists|j: int|
                        j < i && start@.enters_at(pairs, j, k) && #[trigger] copied_from(
                            edges@[j],
                            k,
                            self.payload(k),
                        ),
            decreases edges.len() - i,
        {
            let ghost before = *self;
            self.add_edge(&edges[i]);
            proof {
                assert(pairs.take(i as int + 1).drop_last() =~= pairs.take(i as int));
                assert(pairs.take(i as int + 1).last() == pairs[i as int]);
                assert forall|k: Ix::V|
                    self@.keys().contains(k) && !start@.keys().contains(k) implies exists|j: int|
                    j < i + 1 && start@.enters_at(pairs, j, k) && #[trigger] copied_from(
                        edges@[j],
                        k,
                        self.payload(k),
                    ) by {
                    if before@.keys().contains(k) {
                        let j = choose|j: int|
                            j < i && start@.enters_at(pairs, j, k) && #[trigger] copied_from(
                                edges@[j],
                                k,
                                before.payload(k),
                            );
                        assert(copied_from(edges@[j], k, self.payload(k)));
                    } else {
                        assert(start@.enters_at(pairs, i as int, k));
                        assert(copied_from(edges@[i as int], k, self.payload(k)));
                    }
                }
            }
            i += 1;
        }
        assert(pairs.take(i as int) =~= pairs);
    }

    /// Puts copies of the vertices in, one after the other, as `add_vertex`
    /// does.
    pub fn add_vertices(&mut self, vertices: &[Vertex<T, Ix>])
        requires
            old(self).wf(),
        ensures
            final(self).wf(),
            final(self)@ == old(self)@.with_vertices(places(vertices@)),
            old(self)@.consistent() ==> final(self)@.consistent(),
            forall|k: Ix::V|
                old(self)@.keys().contains(k) && (forall|j: int|
                    0 <= j < vertices@.len() ==> (#[trigger] vertices@[j])@.index != k)
                    ==> final(self).payload(k) == old(self).payload(k),
            forall|j: int|
                0 <= j < vertices@.len() && (forall|l: int|
                    j < l < vertices@.len() ==> (#[trigger] vertices@[l])@.index
                        != vertices@[j]@.index) ==> cloned(
                    (#[trigger] vertices@[j]).payload(),
                    final(self).payload(vertices@[j]@.index),
                ),
    {
        let ghost start = *self;
        let ghost links = places(vertices@);
        proof {
            if start@.consistent() {
                start@.lemma_with_vertices_consistent(links);
            }
        }
        let mut i: usize = 0;
        while i < vertices.len()
            invariant
                i <= vertices.len(),
                links == places(vertices@),
                self.wf(),
                self@ == start@.with_vertices(links.take(i as int)),
                forall|k: Ix::V| start@.keys().contains(k) ==> self@.keys().contains(k),
                forall|j: int|
                    0 <= j < i ==> self@.keys().contains((#[trigger] vertices@[j])@.index),
                forall|k: Ix::V|
                    start@.keys().contains(k) && (forall|j: int|
                        0 <= j < i ==> (#[trigger] vertices@[j])@.index != k) ==> self.payload(k)
                        == start.payload(k),
                forall|j: int|
                    0 <= j < i && (forall|l: int|
                        j < l < i ==> (#[trigger] vertices@[l])@.index != vertices@[j]@.index)
                        ==> cloned(
                        (#[trigger] vertices@[j]).payload(),
                        self.payload(vertices@[j]@.index),
                    ),
            decreases vertices.len() - i,
        {
            self.add_vertex(&vertices[i]);
            proof {
                assert(links.take(i as int + 1).drop_last() =~= links.take(i as int));
                assert(links.take(i as int + 1).last() == links[i as int]);
            }
            i += 1;
        }
        assert(links.take(i as int) =~= links);
    }

    /// A topological order of what the roots reach: every key that a path
    /// from a root arrives at stands once, before every other key that it
    /// reaches. In a coherent graph these are the keys of all vertices.
    /// `WouldCycle` where the graph lists no root or no leaf.
    pub fn topological_sort(&self) -> (result: GraphResult<Ix>)
        requires
            self.wf(),
        ensures
            match result {
                Ok(GraphOk::VecRes(order)) => {
                    &&& !self@.roots.is_empty()
                    &&& !self@.leaves.is_empty()
                    &&& topological(self@.edges, views(order@))
                    &&& views(order@).to_set() == reached_from(self@.edges, self@.roots)
                    &&& self@.coherent() ==> views(order@).to_set() == self@.keys()
                },
                Err(GraphError::WouldCycle) => self@.roots.is_empty() || self@.leaves.is_empty(),
                _ => false,
            },
    {
        let roots = self.get_roots();
        let leaves = self.get_leaves();
        if roots.is_empty() {
            return Err(GraphError::WouldCycle);
        }
        if leaves.is_empty() {
            return Err(GraphError::WouldCycle);
        }
        let ghost arcs = self@.edges;
        let mut stack: Vec<Ix> = Vec::new();
        assert(views(stack@) =~= Seq::<Ix::V>::empty());
        let n = roots.len();
        let mut i: usize = 0;
        while i < n
            invariant
                self.wf(),
                arcs == self@.edges,
                roots@ == self@.roots,
                i <= n,
                n == roots.order().len(),
                settled(arcs, Direction::Reference, views(stack@)),
                forall|k: Ix::V|
                    views(stack@).contains(k) ==> exists|j: int|
                        0 <= j < i && #[trigger] reaches(arcs, roots.order()[j], k),
                forall|j: int, k: Ix::V|
                    0 <= j < i && #[trigger] reaches(arcs, roots.order()[j], k) ==> views(
                        stack@,
                    ).contains(k),
            decreases n - i,
        {
            let root = roots.get(i);
            let ghost before = views(stack@);
            assert(roots.order().contains(roots.order()[i as int]));
            if let Some(vtx) = self.get_vertex(root.clone_key()) {
                self.dfs(vtx, &mut stack)?;
                proof {
                    let after = views(stack@);
                    assert forall|k: Ix::V| after.contains(k) implies exists|j: int|
                        0 <= j < i + 1 && #[trigger] reaches(arcs, roots.order()[j], k) by {
                        assert(after.to_set().contains(k));
                        if before.contains(k) {
                            let j = choose|j: int|
                                0 <= j < i && #[trigger] reaches(arcs, roots.order()[j], k);
                            assert(reaches(arcs, roots.order()[j], k));
                        } else {
                            assert(reaches(arcs, roots.order()[i as int], k));
                        }
                    }
                    assert forall|j: int, k: Ix::V|
                        0 <= j < i + 1 && #[trigger] reaches(
                            arcs,
                            roots.order()[j],
                            k,
                        ) implies after.contains(k) by {
                        assert(after.to_set().contains(k));
                    }
                }
            }
            i += 1;
        }
        proof {
            lemma_settled_reverse(arcs, views(stack@));
            let record = views(stack@);
            assert forall|k: Ix::V| record.to_set().contains(k) <==> reached_from(
                arcs,
                self@.roots,
            ).contains(k) by {
                if record.contains(k) {
                    let j = choose|j: int|
                        0 <= j < n && #[trigger] reaches(arcs, roots.order()[j], k);
                    assert(roots.order().contains(roots.order()[j]));
                }
                if reached_from(arcs, self@.roots).contains(k) {
                    let s = choose|s: Ix::V|
                        self@.roots.contains(s) && #[trigger] reaches(arcs, s, k);
                    assert(roots.order().contains(s));
                    let j = choose|j: int| 0 <= j < roots.order().len() && roots.order()[j] == s;
                    assert(reaches(arcs, roots.order()[j], k));
                }
            }
            assert(record.to_set() =~= reached_from(arcs, self@.roots));
            if self@.coherent() {
                self@.lemma_roots_reach_all();
            }
        }
        let order = reversed(stack);
        Ok(GraphOk::VecRes(order))
    }

    /// Adds to `stack` every key that `vertex` reaches, `vertex` itself last.
    fn dfs(&self, vertex: &Vertex<T, Ix>, stack: &mut Vec<Ix>) -> (result: GraphResult<Ix>)
        requires
            self.wf(),
            settled(self@.edges, Direction::Reference, views(old(stack)@)),
        ensures
            result matches Ok(GraphOk::Done),
            settled(self@.edges, Direction::Reference, views(final(stack)@)),
            views(old(stack)@).is_prefix_of(views(final(stack)@)),
            views(final(stack)@).to_set() == views(old(stack)@).to_set().union(
                reach_set(self@.edges, Direction::Reference, vertex@.index),
            ),
    {
        self.get_references(vertex, stack);
        Ok(GraphOk::Done)
    }
}

impl<T: Clone, Ix: Index> Default for BullDag<T, Ix> {
    fn default() -> (graph: Self)
        ensures
            graph.wf(),
            graph@ == Shape::<Ix::V>::empty(),
    {
        Self::new()
    }
}

impl<T: Clone, Ix: Index> Clone for BullDag<T, Ix> {
    /// A well-formed graph is copied vertex by vertex and edge by edge.
    fn clone(&self) -> (copy: Self)
        ensures
            self.wf() ==> {
                &&& copy.wf()
                &&& copy@ == self@
                &&& forall|k: Ix::V|
                    self@.keys().contains(k) ==> cloned(self.payload(k), copy.payload(k))
            },
    {
        let mut vertices: Vec<Vertex<T, Ix>> = Vec::new();
        let mut i: usize = 0;
        while i < self.vertices.len()
            invariant
                i <= self.vertices.len(),
                vertices.len() == i,
                forall|j: int|
                    0 <= j < i ==> (#[trigger] vertices[j])@ == self.vertices[j]@ && cloned(
                        self.vertices[j].payload(),
                        vertices[j].payload(),
                    ),
            decreases self.vertices.len() - i,
        {
            vertices.push(self.vertices[i].clone());
            i += 1;
        }
        let copy = BullDag {
            roots: self.roots.clone(),
            leaves: self.leaves.clone(),
            keys: self.keys.clone(),
            vertices,
            edges: self.edges.clone(),
        };
        proof {
            if self.wf() {
                assert forall|k: Ix::V| self@.keys().contains(k) implies copy.vertices[copy.slot(
                    k,
                )]@ == self.vertices[self.slot(k)]@ && cloned(self.payload(k), copy.payload(k)) by {
                    self.lemma_slot_of(k);
                }
                assert(copy@.vertices =~= self@.vertices);
                assert(copy@ =~= self@);
            }
        }
        copy
    }
}

/// The keys of `stack`, last first.
fn reversed<Ix: Index>(stack: Vec<Ix>) -> (order: Vec<Ix>)
    ensures
        views(order@) == views(stack@).reverse(),
{
    let mut stack = stack;
    let ghost record = views(stack@);
    let mut order: Vec<Ix> = Vec::new();
    while stack.len() > 0
        invariant
            order.len() + stack.len() == record.len(),
            views(stack@) == record.take(stack.len() as int),
            forall|j: int|
                0 <= j < order.len() ==> views(order@)[j] == record[record.len() - 1 - j],
        decreases stack.len(),
    {
        let ghost rest = views(stack@);
        let ghost done = views(order@);
        match stack.pop() {
            Some(key) => {
                assert(key@ == rest[rest.len() - 1]);
                order.push(key);
                assert(views(stack@) =~= record.take(stack.len() as int));
                assert forall|j: int| 0 <= j < order.len() implies views(order@)[j]
                    == record[record.len() - 1 - j] by {
                    if j < done.len() {
                        assert(views(order@)[j] == done[j]);
                    }
                }
            },
            None => {},
        }
    }
    assert(views(order@) =~= record.reverse());
    order
}

/// Whether `stack` holds `key`.
fn holds<Ix: Index>(stack: &Vec<Ix>, key: &Ix) -> (held: bool)
    ensures
        held == views(stack@).contains(key@),
{
    let mut i: usize = 0;
    while i < stack.len()
        invariant
            i <= stack.len(),
            forall|j: int| 0 <= j < i ==> views(stack@)[j] != key@,
        decreases stack.len() - i,
    {
        if stack[i].same_key(key) {
            assert(views(stack@)[i as int] == key@);
            return true;
        }
        i += 1;
    }
    false
}

/// A finite set without elements is the empty set.
proof fn lemma_count_zero<A>(s: Set<A>)
    requires
        s.finite(),
    ensures
        s.len() == 0 <==> s.is_empty(),
{
    if s.len() == 0 && !s.is_empty() {
        let a = choose|a: A| s.contains(a);
        assert(s.remove(a).len() == s.len() - 1);
    }
}

} // verus!
