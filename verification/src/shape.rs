use crate::vertex::{Direction, Links};
use vstd::prelude::*;
use vstd::relations::injective_on;
use vstd::set_lib::{lemma_len_subset, lemma_map_size, lemma_set_disjoint_lens};

verus! {

/// Whether the step from place `i` of `p` to the next place is an edge.
pub open spec fn hop<K>(edges: Set<(K, K)>, p: Seq<K>, i: int) -> bool {
    edges.contains((p[i], p[i + 1]))
}

/// Whether `p` is a path: a non-empty sequence of keys in which every step
/// follows an edge from its source to its reference.
pub open spec fn is_path<K>(edges: Set<(K, K)>, p: Seq<K>) -> bool {
    p.len() >= 1 && forall|i: int| 0 <= i < p.len() - 1 ==> #[trigger] hop(edges, p, i)
}

/// Whether some path leads from `a` to `b`. Every key reaches itself.
pub open spec fn reaches<K>(edges: Set<(K, K)>, a: K, b: K) -> bool {
    exists|p: Seq<K>| #[trigger] is_path(edges, p) && p[0] == a && p.last() == b
}

/// Whether no path of at least one edge leads from a key back to itself.
pub open spec fn acyclic<K>(edges: Set<(K, K)>) -> bool {
    forall|p: Seq<K>| #[trigger] is_path(edges, p) && p.len() >= 2 ==> p[0] != p.last()
}

/// Whether one step from `from` in the given direction arrives at `to`.
pub open spec fn steps<K>(edges: Set<(K, K)>, direction: Direction, from: K, to: K) -> bool {
    match direction {
        Direction::Source => edges.contains((to, from)),
        Direction::Reference => edges.contains((from, to)),
    }
}

/// Whether walking from `from` in the given direction, by any number of
/// steps, arrives at `to`.
pub open spec fn walks<K>(edges: Set<(K, K)>, direction: Direction, from: K, to: K) -> bool {
    match direction {
        Direction::Source => reaches(edges, to, from),
        Direction::Reference => reaches(edges, from, to),
    }
}

/// Every key that a walk from `from` in the given direction arrives at:
/// `from` itself and all its ancestors (towards the sources) or all its
/// descendants (towards the references).
pub open spec fn reach_set<K>(edges: Set<(K, K)>, direction: Direction, from: K) -> Set<K> {
    Set::new(|k: K| walks(edges, direction, from, k))
}

pub proof fn lemma_reaches_self<K>(edges: Set<(K, K)>, a: K)
    ensures
        reaches(edges, a, a),
{
    let p = seq![a];
    assert(is_path(edges, p));
    assert(p[0] == a && p.last() == a);
}

pub proof fn lemma_reaches_edge<K>(edges: Set<(K, K)>, a: K, b: K)
    requires
        edges.contains((a, b)),
    ensures
        reaches(edges, a, b),
{
    let p = seq![a, b];
    assert forall|i: int| 0 <= i < p.len() - 1 implies #[trigger] hop(edges, p, i) by {
        assert(p[0] == a && p[1] == b);
    }
    assert(is_path(edges, p));
    assert(p[0] == a && p.last() == b);
}

/// Two paths, the second starting where the first ends, make one path.
pub proof fn lemma_path_join<K>(edges: Set<(K, K)>, p: Seq<K>, q: Seq<K>) -> (r: Seq<K>)
    requires
        is_path(edges, p),
        is_path(edges, q),
        p.last() == q[0],
    ensures
        is_path(edges, r),
        r[0] == p[0],
        r.last() == q.last(),
        r.len() == p.len() + q.len() - 1,
{
    let r = p + q.subrange(1, q.len() as int);
    assert forall|i: int| 0 <= i < r.len() - 1 implies #[trigger] hop(edges, r, i) by {
        if i < p.len() - 1 {
            assert(hop(edges, p, i));
        } else {
            assert(hop(edges, q, i - p.len() + 1));
        }
    }
    r
}

pub proof fn lemma_reaches_trans<K>(edges: Set<(K, K)>, a: K, b: K, c: K)
    requires
        reaches(edges, a, b),
        reaches(edges, b, c),
    ensures
        reaches(edges, a, c),
{
    let p = choose|p: Seq<K>| #[trigger] is_path(edges, p) && p[0] == a && p.last() == b;
    let q = choose|q: Seq<K>| #[trigger] is_path(edges, q) && q[0] == b && q.last() == c;
    let r = lemma_path_join(edges, p, q);
    assert(is_path(edges, r) && r[0] == a && r.last() == c);
}

/// A path between two different keys starts with an edge.
pub proof fn lemma_reaches_first_hop<K>(edges: Set<(K, K)>, a: K, b: K) -> (m: K)
    requires
        reaches(edges, a, b),
        a != b,
    ensures
        edges.contains((a, m)),
        reaches(edges, m, b),
{
    let p = choose|p: Seq<K>| #[trigger] is_path(edges, p) && p[0] == a && p.last() == b;
    assert(hop(edges, p, 0));
    let q = p.subrange(1, p.len() as int);
    assert forall|i: int| 0 <= i < q.len() - 1 implies #[trigger] hop(edges, q, i) by {
        assert(hop(edges, p, i + 1));
    }
    assert(is_path(edges, q) && q[0] == p[1] && q.last() == b);
    p[1]
}

/// A path between two different keys ends with an edge.
pub proof fn lemma_reaches_last_hop<K>(edges: Set<(K, K)>, a: K, b: K) -> (m: K)
    requires
        reaches(edges, a, b),
        a != b,
    ensures
        reaches(edges, a, m),
        edges.contains((m, b)),
{
    let p = choose|p: Seq<K>| #[trigger] is_path(edges, p) && p[0] == a && p.last() == b;
    assert(hop(edges, p, p.len() - 2));
    let q = p.drop_last();
    assert forall|i: int| 0 <= i < q.len() - 1 implies #[trigger] hop(edges, q, i) by {
        assert(hop(edges, p, i));
    }
    assert(is_path(edges, q) && q[0] == a && q.last() == p[p.len() - 2]);
    p[p.len() - 2]
}

/// With more edges, whatever was reached is still reached.
pub proof fn lemma_reaches_grows<K>(edges: Set<(K, K)>, more: Set<(K, K)>, a: K, b: K)
    requires
        edges.subset_of(more),
        reaches(edges, a, b),
    ensures
        reaches(more, a, b),
{
    let p = choose|p: Seq<K>| #[trigger] is_path(edges, p) && p[0] == a && p.last() == b;
    assert forall|i: int| 0 <= i < p.len() - 1 implies #[trigger] hop(more, p, i) by {
        assert(hop(edges, p, i));
    }
    assert(is_path(more, p));
}

/// In an acyclic set of edges, no edge leads back to where a path to its
/// source began, and no key has an edge to itself.
pub proof fn lemma_acyclic_edge<K>(edges: Set<(K, K)>, a: K, b: K)
    requires
        acyclic(edges),
        edges.contains((a, b)),
    ensures
        !reaches(edges, b, a),
        a != b,
{
    if reaches(edges, b, a) {
        let q = choose|q: Seq<K>| #[trigger] is_path(edges, q) && q[0] == b && q.last() == a;
        let p = seq![a, b];
        assert forall|i: int| 0 <= i < p.len() - 1 implies #[trigger] hop(edges, p, i) by {
            assert(p[0] == a && p[1] == b);
        }
        let r = lemma_path_join(edges, p, q);
        assert(r.len() >= 2);
    }
    if a == b {
        lemma_reaches_self(edges, a);
    }
}

/// A path in a set of edges with one more edge either is matched by a path
/// of the old edges, or passes through the new edge.
proof fn lemma_path_through_new_edge<K>(edges: Set<(K, K)>, s: K, r: K, p: Seq<K>)
    requires
        is_path(edges.insert((s, r)), p),
    ensures
        (exists|q: Seq<K>| #[trigger]
            is_path(edges, q) && q[0] == p[0] && q.last() == p.last() && (p.len() >= 2 ==> q.len()
                >= 2)) || (reaches(edges, p[0], s) && reaches(edges, r, p.last())),
    decreases p.len(),
{
    let more = edges.insert((s, r));
    if p.len() == 1 {
        assert(is_path(edges, p));
    } else {
        let n = p.len() as int;
        let front = p.drop_last();
        assert forall|i: int| 0 <= i < front.len() - 1 implies #[trigger] hop(more, front, i) by {
            assert(hop(more, p, i));
        }
        lemma_path_through_new_edge(edges, s, r, front);
        assert(hop(more, p, n - 2));
        let from = p[n - 2];
        let to = p[n - 1];
        assert(front.last() == from && front[0] == p[0]);
        if edges.contains((from, to)) {
            lemma_reaches_edge(edges, from, to);
            if reaches(edges, p[0], s) && reaches(edges, r, from) {
                lemma_reaches_trans(edges, r, from, to);
            } else {
                let q = choose|q: Seq<K>| #[trigger]
                    is_path(edges, q) && q[0] == front[0] && q.last() == front.last() && (
                    front.len() >= 2 ==> q.len() >= 2);
                let step = seq![from, to];
                assert forall|i: int| 0 <= i < step.len() - 1 implies #[trigger] hop(
                    edges,
                    step,
                    i,
                ) by {
                    assert(step[0] == from && step[1] == to);
                }
                let joined = lemma_path_join(edges, q, step);
                assert(is_path(edges, joined) && joined[0] == p[0] && joined.last() == p.last()
                    && joined.len() >= 2);
            }
        } else {
            assert(from == s && to == r);
            lemma_reaches_self(edges, r);
            if !(reaches(edges, p[0], s) && reaches(edges, r, from)) {
                let q = choose|q: Seq<K>| #[trigger]
                    is_path(edges, q) && q[0] == front[0] && q.last() == front.last() && (
                    front.len() >= 2 ==> q.len() >= 2);
                assert(is_path(edges, q) && q[0] == p[0] && q.last() == s);
            }
        }
    }
}

/// An edge from `s` to `r` can join an acyclic set of edges without closing
/// a cycle exactly when no path leads from `r` to `s`.
pub proof fn lemma_acyclic_insert<K>(edges: Set<(K, K)>, s: K, r: K)
    requires
        acyclic(edges),
    ensures
        acyclic(edges.insert((s, r))) <==> !reaches(edges, r, s),
{
    let more = edges.insert((s, r));
    if !reaches(edges, r, s) {
        assert forall|p: Seq<K>| #[trigger] is_path(more, p) && p.len() >= 2 implies p[0]
            != p.last() by {
            lemma_path_through_new_edge(edges, s, r, p);
            if p[0] == p.last() {
                if reaches(edges, p[0], s) && reaches(edges, r, p.last()) {
                    lemma_reaches_trans(edges, r, p[0], s);
                }
            }
        }
    } else {
        lemma_reaches_grows(edges, more, r, s);
        if acyclic(more) {
            lemma_acyclic_edge(more, s, r);
        }
    }
}

/// The end of `edge` that a walk in the given direction leaves from.
pub open spec fn near_end<K>(edge: (K, K), direction: Direction) -> K {
    match direction {
        Direction::Source => edge.1,
        Direction::Reference => edge.0,
    }
}

/// The end of `edge` that a walk in the given direction arrives at.
pub open spec fn far_end<K>(edge: (K, K), direction: Direction) -> K {
    match direction {
        Direction::Source => edge.0,
        Direction::Reference => edge.1,
    }
}

/// Whether `stack` records keys in the order in which a walk in the given
/// direction completes them: no key twice, and no key before a key that it
/// walks to.
pub open spec fn settled<K>(edges: Set<(K, K)>, direction: Direction, stack: Seq<K>) -> bool {
    &&& stack.no_duplicates()
    &&& forall|i: int, k: K|
        0 <= i < stack.len() && #[trigger] walks(edges, direction, stack[i], k) ==> stack.take(
            i + 1,
        ).contains(k)
}

/// In a settled record no key walks to a key recorded after it.
pub proof fn lemma_settled_order<K>(
    edges: Set<(K, K)>,
    direction: Direction,
    stack: Seq<K>,
    i: int,
    j: int,
)
    requires
        settled(edges, direction, stack),
        0 <= i < j < stack.len(),
    ensures
        !walks(edges, direction, stack[i], stack[j]),
{
    if walks(edges, direction, stack[i], stack[j]) {
        let front = stack.take(i + 1);
        let at = choose|at: int| 0 <= at < front.len() && front[at] == stack[j];
        assert(stack[at] == stack[j]);
    }
}

pub proof fn lemma_walks_self<K>(edges: Set<(K, K)>, direction: Direction, from: K)
    ensures
        walks(edges, direction, from, from),
{
    lemma_reaches_self(edges, from);
}

/// A step followed by a walk is a walk.
pub proof fn lemma_walks_after_step<K>(
    edges: Set<(K, K)>,
    direction: Direction,
    from: K,
    next: K,
    to: K,
)
    requires
        steps(edges, direction, from, next),
        walks(edges, direction, next, to),
    ensures
        walks(edges, direction, from, to),
{
    match direction {
        Direction::Source => {
            lemma_reaches_edge(edges, next, from);
            lemma_reaches_trans(edges, to, next, from);
        },
        Direction::Reference => {
            lemma_reaches_edge(edges, from, next);
            lemma_reaches_trans(edges, from, next, to);
        },
    }
}

/// A walk to another key begins with a step.
pub proof fn lemma_walks_first_step<K>(
    edges: Set<(K, K)>,
    direction: Direction,
    from: K,
    to: K,
) -> (next: K)
    requires
        walks(edges, direction, from, to),
        from != to,
    ensures
        steps(edges, direction, from, next),
        walks(edges, direction, next, to),
{
    match direction {
        Direction::Source => lemma_reaches_last_hop(edges, to, from),
        Direction::Reference => lemma_reaches_first_hop(edges, from, to),
    }
}

/// Every key that a path from one of `starts` arrives at.
pub open spec fn reached_from<K>(edges: Set<(K, K)>, starts: Set<K>) -> Set<K> {
    Set::new(|k: K| exists|s: K| starts.contains(s) && #[trigger] reaches(edges, s, k))
}

/// Whether `order` lists keys so that each stands once, and every key that
/// a listed key reaches stands at its place or after it.
pub open spec fn topological<K>(edges: Set<(K, K)>, order: Seq<K>) -> bool {
    &&& order.no_duplicates()
    &&& forall|i: int, k: K|
        0 <= i < order.len() && #[trigger] reaches(edges, order[i], k) ==> order.skip(
            i,
        ).contains(k)
}

/// In a topological order no key reaches a key listed before it. So the
/// source of an edge between listed keys stands before the edge's reference.
pub proof fn lemma_topological_order<K>(edges: Set<(K, K)>, order: Seq<K>, i: int, j: int)
    requires
        topological(edges, order),
        0 <= i < j < order.len(),
    ensures
        !reaches(edges, order[j], order[i]),
        !edges.contains((order[j], order[i])),
{
    if reaches(edges, order[j], order[i]) {
        let rest = order.skip(j);
        let at = choose|at: int| 0 <= at < rest.len() && rest[at] == order[i];
        assert(order[j + at] == order[i]);
    }
    if edges.contains((order[j], order[i])) {
        lemma_reaches_edge(edges, order[j], order[i]);
    }
}

/// A record settled along the references, read backwards, is a topological
/// order.
pub proof fn lemma_settled_reverse<K>(edges: Set<(K, K)>, stack: Seq<K>)
    requires
        settled(edges, Direction::Reference, stack),
    ensures
        topological(edges, stack.reverse()),
        stack.reverse().to_set() == stack.to_set(),
{
    let order = stack.reverse();
    let n = stack.len() as int;
    assert forall|i: int, j: int|
        0 <= i < order.len() && 0 <= j < order.len() && i != j implies order[i] != order[j] by {
        assert(order[i] == stack[n - 1 - i] && order[j] == stack[n - 1 - j]);
    }
    assert forall|i: int, k: K|
        0 <= i < order.len() && #[trigger] reaches(edges, order[i], k) implies order.skip(
        i,
    ).contains(k) by {
        assert(order[i] == stack[n - 1 - i]);
        assert(walks(edges, Direction::Reference, stack[n - 1 - i], k));
        let front = stack.take(n - i);
        let at = choose|at: int| 0 <= at < front.len() && front[at] == k;
        assert(stack[at] == k);
        assert(order.skip(i)[n - 1 - at - i] == order[n - 1 - at]);
    }
    assert forall|k: K| order.to_set().contains(k) <==> stack.to_set().contains(k) by {
        if order.contains(k) {
            let at = choose|at: int| 0 <= at < order.len() && order[at] == k;
            assert(stack[n - 1 - at] == k);
        }
        if stack.contains(k) {
            let at = choose|at: int| 0 <= at < stack.len() && stack[at] == k;
            assert(order[n - 1 - at] == k);
        }
    }
    assert(order.to_set() =~= stack.to_set());
}

/// The edges whose source is among `from`.
pub open spec fn leaving<K>(edges: Set<(K, K)>, from: Set<K>) -> Set<(K, K)> {
    edges.filter(|e: (K, K)| from.contains(e.0))
}

/// The edges whose reference is among `to`.
pub open spec fn arriving<K>(edges: Set<(K, K)>, to: Set<K>) -> Set<(K, K)> {
    edges.filter(|e: (K, K)| to.contains(e.1))
}

/// The shape of a graph: which vertices it holds and what each knows of its
/// neighbours, which edges it has accepted, and which keys it lists as roots
/// and as leaves.
#[verifier::ext_equal]
#[verifier::reject_recursive_types(K)]
pub struct Shape<K> {
    pub vertices: Map<K, Links<K>>,
    pub edges: Set<(K, K)>,
    pub roots: Set<K>,
    pub leaves: Set<K>,
}

impl<K> Shape<K> {
    /// The graph without vertices and edges.
    pub open spec fn empty() -> Self {
        Shape {
            vertices: Map::empty(),
            edges: Set::empty(),
            roots: Set::empty(),
            leaves: Set::empty(),
        }
    }

    /// The keys under which the graph holds a vertex.
    pub open spec fn keys(self) -> Set<K> {
        self.vertices.dom()
    }

    /// What every graph keeps, whatever is submitted to it: it holds finitely
    /// many vertices and edges, each vertex under its own key; roots, leaves
    /// and the ends of every edge are keys of vertices; and the edges form no
    /// cycle.
    pub open spec fn sound(self) -> bool {
        &&& self.keys().finite()
        &&& self.edges.finite()
        &&& forall|k: K| self.keys().contains(k) ==> (#[trigger] self.vertices[k]).index == k
        &&& self.roots.subset_of(self.keys())
        &&& self.leaves.subset_of(self.keys())
        &&& forall|a: K, b: K| #[trigger]
            self.edges.contains((a, b)) ==> self.keys().contains(a) && self.keys().contains(b)
        &&& acyclic(self.edges)
    }

    /// Whether the lists of roots and leaves agree with the vertices: a key is
    /// a root exactly when its vertex names no source, and a leaf exactly when
    /// its vertex names no reference.
    pub open spec fn consistent(self) -> bool {
        forall|k: K| #[trigger]
            self.keys().contains(k) ==> {
                &&& self.roots.contains(k) <==> self.vertices[k].sources.is_empty()
                &&& self.leaves.contains(k) <==> self.vertices[k].references.is_empty()
            }
    }

    /// Whether the neighbours that the vertices name are those that the edges
    /// give them.
    pub open spec fn mirrors_edges(self) -> bool {
        &&& forall|k: K, n: K|
            #![trigger self.vertices[k].sources.contains(n)]
            #![trigger self.edges.contains((n, k))]
            self.keys().contains(k) ==> (self.vertices[k].sources.contains(n)
                <==> self.edges.contains((n, k)))
        &&& forall|k: K, n: K|
            #![trigger self.vertices[k].references.contains(n)]
            #![trigger self.edges.contains((k, n))]
            self.keys().contains(k) ==> (self.vertices[k].references.contains(n)
                <==> self.edges.contains((k, n)))
    }

    /// Whether the graph is what submitting edges between vertices without
    /// neighbours makes of an empty graph: sound, with lists of roots and
    /// leaves that agree with the vertices, and with vertices that name the
    /// neighbours that the edges give them.
    pub open spec fn coherent(self) -> bool {
        self.sound() && self.consistent() && self.mirrors_edges()
    }

    /// Whether the graph holds vertices but lists no root or no leaf. Such a
    /// graph accepts no edge.
    pub open spec fn degenerate(self) -> bool {
        !self.keys().is_empty() && (self.roots.is_empty() || self.leaves.is_empty())
    }

    /// Whether the graph accepts an edge from `source` to `reference`: it is
    /// not degenerate and no path leads from `reference` back to `source`.
    pub open spec fn admits(self, source: K, reference: K) -> bool {
        !self.degenerate() && !reaches(self.edges, reference, source)
    }

    /// The graph after `vertex` has been put under its key: the key is
    /// listed as a root exactly if the vertex names no source, and as a leaf
    /// exactly if it names no reference.
    pub open spec fn with_vertex(self, vertex: Links<K>) -> Self {
        Shape {
            vertices: self.vertices.insert(vertex.index, vertex),
            edges: self.edges,
            roots: if vertex.sources.is_empty() {
                self.roots.insert(vertex.index)
            } else {
                self.roots.remove(vertex.index)
            },
            leaves: if vertex.references.is_empty() {
                self.leaves.insert(vertex.index)
            } else {
                self.leaves.remove(vertex.index)
            },
        }
    }

    /// The vertex that the graph holds under the key of `vertex`; `vertex`
    /// itself where it holds none.
    pub open spec fn stored(self, vertex: Links<K>) -> Links<K> {
        if self.keys().contains(vertex.index) {
            self.vertices[vertex.index]
        } else {
            vertex
        }
    }

    /// The graph after the edge from `source` to `reference` has been
    /// submitted. A graph that does not admit the edge stays as it is.
    /// Otherwise both ends take note of the edge, a missing end is put in as
    /// submitted, the edge joins the set of edges, `source` is no leaf and
    /// `reference` no root any more.
    pub open spec fn with_edge(self, source: Links<K>, reference: Links<K>) -> Self {
        let edge = (source.index, reference.index);
        if !self.admits(edge.0, edge.1) {
            self
        } else {
            let from = self.stored(source).absorb(edge);
            let to = self.stored(reference).absorb(edge);
            Shape {
                vertices: self.vertices.insert(edge.0, from).insert(edge.1, to),
                edges: self.edges.insert(edge),
                roots: (if from.sources.is_empty() {
                    self.roots.insert(edge.0)
                } else {
                    self.roots
                }).remove(edge.1),
                leaves: if to.references.is_empty() {
                    self.leaves.remove(edge.0).insert(edge.1)
                } else {
                    self.leaves.remove(edge.0)
                },
            }
        }
    }

    /// The graph after the vertices have been put in, one after the other.
    pub open spec fn with_vertices(self, vertices: Seq<Links<K>>) -> Self
        decreases vertices.len(),
    {
        if vertices.len() == 0 {
            self
        } else {
            self.with_vertices(vertices.drop_last()).with_vertex(vertices.last())
        }
    }

    /// The graph after the edges have been submitted, one after the other,
    /// each given by its two ends, source first.
    pub open spec fn with_edges(self, pairs: Seq<(Links<K>, Links<K>)>) -> Self
        decreases pairs.len(),
    {
        if pairs.len() == 0 {
            self
        } else {
            self.with_edges(pairs.drop_last()).with_edge(pairs.last().0, pairs.last().1)
        }
    }

    /// Whether `key` comes into the graph with the edge at place `at` of
    /// `pairs`, when the edges are submitted one after the other.
    pub open spec fn enters_at(self, pairs: Seq<(Links<K>, Links<K>)>, at: int, key: K) -> bool {
        &&& 0 <= at < pairs.len()
        &&& !self.with_edges(pairs.take(at)).keys().contains(key)
        &&& self.with_edges(pairs.take(at + 1)).keys().contains(key)
    }

    /// The number of references that the vertices under `keys` name, all
    /// told.
    pub open spec fn references_named(self, keys: Set<K>) -> nat
        decreases keys.len(),
        when keys.finite()
    {
        if keys.is_empty() {
            0
        } else {
            let k = keys.choose();
            self.vertices[k].references.len() + self.references_named(keys.remove(k))
        }
    }

    /// The number of sources that the vertices under `keys` name, all told.
    pub open spec fn sources_named(self, keys: Set<K>) -> nat
        decreases keys.len(),
        when keys.finite()
    {
        if keys.is_empty() {
            0
        } else {
            let k = keys.choose();
            self.vertices[k].sources.len() + self.sources_named(keys.remove(k))
        }
    }

    /// The empty graph is sound and consistent.
    pub proof fn lemma_empty_sound()
        ensures
            Self::empty().sound(),
            Self::empty().consistent(),
            Self::empty().mirrors_edges(),
    {
        let g = Self::empty();
        assert forall|p: Seq<K>| #[trigger] is_path(g.edges, p) && p.len() >= 2 implies p[0]
            != p.last() by {
            assert(hop(g.edges, p, 0));
        }
    }

    /// Putting a vertex in keeps the graph sound.
    pub proof fn lemma_with_vertex_sound(self, vertex: Links<K>)
        requires
            self.sound(),
        ensures
            self.with_vertex(vertex).sound(),
    {
    }

    /// Submitting an edge keeps the graph sound. In particular, the edges
    /// never come to hold a cycle.
    pub proof fn lemma_with_edge_sound(self, source: Links<K>, reference: Links<K>)
        requires
            self.sound(),
        ensures
            self.with_edge(source, reference).sound(),
    {
        let edge = (source.index, reference.index);
        if self.admits(edge.0, edge.1) {
            lemma_acyclic_insert(self.edges, edge.0, edge.1);
            let after = self.with_edge(source, reference);
            assert(after.keys() =~= self.keys().insert(edge.0).insert(edge.1));
        }
    }

    /// An edge from a key to itself is never admitted.
    pub proof fn lemma_admits_no_loop(self, key: K)
        ensures
            !self.admits(key, key),
    {
        lemma_reaches_self(self.edges, key);
    }

    /// Submitting an edge keeps the lists of roots and leaves in agreement
    /// with the vertices.
    pub proof fn lemma_with_edge_consistent(self, source: Links<K>, reference: Links<K>)
        requires
            self.sound(),
            self.consistent(),
        ensures
            self.with_edge(source, reference).consistent(),
    {
        let edge = (source.index, reference.index);
        if self.admits(edge.0, edge.1) {
            self.lemma_admits_no_loop(edge.0);
            let after = self.with_edge(source, reference);
            let from = self.stored(source).absorb(edge);
            let to = self.stored(reference).absorb(edge);
            assert(from.references.contains(edge.1));
            assert(to.sources.contains(edge.0));
            assert forall|k: K| #[trigger] after.keys().contains(k) implies {
                &&& after.roots.contains(k) <==> after.vertices[k].sources.is_empty()
                &&& after.leaves.contains(k) <==> after.vertices[k].references.is_empty()
            } by {
                if k != edge.0 && k != edge.1 {
                    assert(self.keys().contains(k));
                }
            }
        }
    }

    /// The empty graph holds nothing.
    pub proof fn lemma_empty_counts()
        ensures
            Self::empty().keys().len() == 0,
            Self::empty().edges.len() == 0,
            Self::empty().roots.len() == 0,
            Self::empty().leaves.len() == 0,
    {
    }

    /// Putting vertices in, one after the other, keeps the graph sound.
    pub proof fn lemma_with_vertices_sound(self, vertices: Seq<Links<K>>)
        requires
            self.sound(),
        ensures
            self.with_vertices(vertices).sound(),
        decreases vertices.len(),
    {
        if vertices.len() > 0 {
            self.lemma_with_vertices_sound(vertices.drop_last());
            self.with_vertices(vertices.drop_last()).lemma_with_vertex_sound(vertices.last());
        }
    }

    /// Whatever edges are submitted, in whatever order, the graph stays
    /// sound: its edges never come to hold a cycle.
    pub proof fn lemma_with_edges_sound(self, pairs: Seq<(Links<K>, Links<K>)>)
        requires
            self.sound(),
        ensures
            self.with_edges(pairs).sound(),
            acyclic(self.with_edges(pairs).edges),
        decreases pairs.len(),
    {
        if pairs.len() > 0 {
            self.lemma_with_edges_sound(pairs.drop_last());
            self.with_edges(pairs.drop_last()).lemma_with_edge_sound(
                pairs.last().0,
                pairs.last().1,
            );
        }
    }

    /// Whatever edges are submitted, in whatever order, the lists of roots
    /// and leaves stay in agreement with the vertices.
    pub proof fn lemma_with_edges_consistent(self, pairs: Seq<(Links<K>, Links<K>)>)
        requires
            self.sound(),
            self.consistent(),
        ensures
            self.with_edges(pairs).consistent(),
        decreases pairs.len(),
    {
        if pairs.len() > 0 {
            self.lemma_with_edges_sound(pairs.drop_last());
            self.lemma_with_edges_consistent(pairs.drop_last());
            self.with_edges(pairs.drop_last()).lemma_with_edge_consistent(
                pairs.last().0,
                pairs.last().1,
            );
        }
    }

    /// Putting a vertex in keeps the lists of roots and leaves in agreement
    /// with the vertices, whatever the vertex names and whatever its key
    /// held before.
    pub proof fn lemma_with_vertex_consistent(self, vertex: Links<K>)
        requires
            self.consistent(),
        ensures
            self.with_vertex(vertex).consistent(),
            self.with_vertex(vertex).roots.contains(vertex.index) <==> vertex.sources.is_empty(),
            self.with_vertex(vertex).leaves.contains(vertex.index)
                <==> vertex.references.is_empty(),
    {
        let after = self.with_vertex(vertex);
        assert forall|k: K| #[trigger] after.keys().contains(k) implies {
            &&& after.roots.contains(k) <==> after.vertices[k].sources.is_empty()
            &&& after.leaves.contains(k) <==> after.vertices[k].references.is_empty()
        } by {
            if k != vertex.index {
                assert(self.keys().contains(k));
            }
        }
    }

    /// Whatever vertices are put in, in whatever order, the lists of roots
    /// and leaves stay in agreement with the vertices.
    pub proof fn lemma_with_vertices_consistent(self, vertices: Seq<Links<K>>)
        requires
            self.consistent(),
        ensures
            self.with_vertices(vertices).consistent(),
        decreases vertices.len(),
    {
        if vertices.len() > 0 {
            self.lemma_with_vertices_consistent(vertices.drop_last());
            self.with_vertices(vertices.drop_last()).lemma_with_vertex_consistent(
                vertices.last(),
            );
        }
    }

    /// An admitted edge brings both its ends into the graph; an edge that is
    /// not admitted brings nothing.
    pub proof fn lemma_with_edge_keys(self, source: Links<K>, reference: Links<K>)
        ensures
            self.with_edge(source, reference).keys() == if self.admits(
                source.index,
                reference.index,
            ) {
                self.keys().insert(source.index).insert(reference.index)
            } else {
                self.keys()
            },
            self.with_edge(source, reference).edges == if self.admits(
                source.index,
                reference.index,
            ) {
                self.edges.insert((source.index, reference.index))
            } else {
                self.edges
            },
    {
        assert(self.with_edge(source, reference).keys() =~= if self.admits(
            source.index,
            reference.index,
        ) {
            self.keys().insert(source.index).insert(reference.index)
        } else {
            self.keys()
        });
    }

    /// A graph that is not degenerate admits every edge between two
    /// different keys of which it holds at most one.
    pub proof fn lemma_admits_new_key(self, source: K, reference: K)
        requires
            self.sound(),
            !self.degenerate(),
            source != reference,
            !self.keys().contains(source) || !self.keys().contains(reference),
        ensures
            self.admits(source, reference),
    {
        if reaches(self.edges, reference, source) {
            let m = lemma_reaches_first_hop(self.edges, reference, source);
            let n = lemma_reaches_last_hop(self.edges, reference, source);
        }
    }

    /// Submitting an edge a second time changes nothing, whatever the
    /// vertices submitted with it carry the second time.
    pub proof fn lemma_with_edge_twice(
        self,
        source: Links<K>,
        reference: Links<K>,
        source_again: Links<K>,
        reference_again: Links<K>,
    )
        requires
            self.sound(),
            source_again.index == source.index,
            reference_again.index == reference.index,
        ensures
            self.with_edge(source, reference).with_edge(source_again, reference_again)
                == self.with_edge(source, reference),
    {
        let edge = (source.index, reference.index);
        let once = self.with_edge(source, reference);
        let twice = once.with_edge(source_again, reference_again);
        if self.admits(edge.0, edge.1) && once.admits(edge.0, edge.1) {
            self.lemma_admits_no_loop(edge.0);
            let from = self.stored(source).absorb(edge);
            let to = self.stored(reference).absorb(edge);
            assert(once.stored(source_again) == from);
            assert(once.stored(reference_again) == to);
            assert(from.absorb(edge) =~= from);
            assert(to.absorb(edge) =~= to);
            assert(twice.vertices =~= once.vertices);
            assert(twice.edges =~= once.edges);
            assert(twice.roots =~= once.roots);
            assert(twice.leaves =~= once.leaves);
        }
    }

    /// Putting a vertex without neighbours under a new key keeps the graph
    /// coherent.
    pub proof fn lemma_with_vertex_coherent(self, index: K)
        requires
            self.coherent(),
            !self.keys().contains(index),
        ensures
            self.with_vertex(Links::fresh(index)).coherent(),
    {
        let vertex = Links::fresh(index);
        let after = self.with_vertex(vertex);
        self.lemma_with_vertex_sound(vertex);
        self.lemma_with_vertex_consistent(vertex);
        assert forall|k: K, n: K| after.keys().contains(k) implies (
        after.vertices[k].sources.contains(n) <==> after.edges.contains((n, k))) && (
        after.vertices[k].references.contains(n) <==> after.edges.contains((k, n))) by {
            if k != index {
                assert(self.keys().contains(k));
            }
        }
    }

    /// Submitting an edge keeps the graph coherent, provided that an end
    /// which the graph does not hold yet is submitted without neighbours.
    pub proof fn lemma_with_edge_coherent(self, source: Links<K>, reference: Links<K>)
        requires
            self.coherent(),
            !self.keys().contains(source.index) ==> source == Links::fresh(source.index),
            !self.keys().contains(reference.index) ==> reference == Links::fresh(reference.index),
        ensures
            self.with_edge(source, reference).coherent(),
    {
        let edge = (source.index, reference.index);
        self.lemma_with_edge_sound(source, reference);
        self.lemma_with_edge_consistent(source, reference);
        if self.admits(edge.0, edge.1) {
            self.lemma_admits_no_loop(edge.0);
            let after = self.with_edge(source, reference);
            assert forall|k: K, n: K| after.keys().contains(k) implies (
            after.vertices[k].sources.contains(n) <==> after.edges.contains((n, k))) && (
            after.vertices[k].references.contains(n) <==> after.edges.contains((k, n))) by {
                if k != edge.0 && k != edge.1 {
                    assert(self.keys().contains(k));
                }
            }
        }
    }

    /// Whatever edges are submitted to a coherent graph, it stays coherent,
    /// provided that an end which the graph does not hold yet when its edge
    /// is submitted comes without neighbours.
    pub proof fn lemma_with_edges_coherent(self, pairs: Seq<(Links<K>, Links<K>)>)
        requires
            self.coherent(),
            forall|i: int|
                0 <= i < pairs.len() ==> (#[trigger] pairs[i]).0 == Links::fresh(pairs[i].0.index)
                    && pairs[i].1 == Links::fresh(pairs[i].1.index),
        ensures
            self.with_edges(pairs).coherent(),
        decreases pairs.len(),
    {
        if pairs.len() > 0 {
            self.lemma_with_edges_coherent(pairs.drop_last());
            assert(pairs.last() == pairs[pairs.len() - 1]);
            self.with_edges(pairs.drop_last()).lemma_with_edge_coherent(
                pairs.last().0,
                pairs.last().1,
            );
        }
    }

    /// In a coherent graph every vertex is reached from a root.
    pub proof fn lemma_root_above(self, key: K) -> (root: K)
        requires
            self.coherent(),
            self.keys().contains(key),
        ensures
            self.roots.contains(root),
            reaches(self.edges, root, key),
        decreases reach_set(self.edges, Direction::Source, key).len(),
    {
        if self.vertices[key].sources.is_empty() {
            lemma_reaches_self(self.edges, key);
            key
        } else {
            let n = choose|n: K| self.vertices[key].sources.contains(n);
            assert(self.edges.contains((n, key)));
            self.lemma_walk_shrinks(Direction::Source, key, n);
            let root = self.lemma_root_above(n);
            lemma_reaches_edge(self.edges, n, key);
            lemma_reaches_trans(self.edges, root, n, key);
            root
        }
    }

    /// In a coherent graph every vertex reaches a leaf.
    pub proof fn lemma_leaf_below(self, key: K) -> (leaf: K)
        requires
            self.coherent(),
            self.keys().contains(key),
        ensures
            self.leaves.contains(leaf),
            reaches(self.edges, key, leaf),
        decreases reach_set(self.edges, Direction::Reference, key).len(),
    {
        if self.vertices[key].references.is_empty() {
            lemma_reaches_self(self.edges, key);
            key
        } else {
            let n = choose|n: K| self.vertices[key].references.contains(n);
            assert(self.edges.contains((key, n)));
            self.lemma_walk_shrinks(Direction::Reference, key, n);
            let leaf = self.lemma_leaf_below(n);
            lemma_reaches_edge(self.edges, key, n);
            lemma_reaches_trans(self.edges, key, n, leaf);
            leaf
        }
    }

    /// A coherent graph is never degenerate: it admits an edge exactly when
    /// the edge closes no cycle.
    pub proof fn lemma_coherent_admits(self, source: K, reference: K)
        requires
            self.coherent(),
        ensures
            !self.degenerate(),
            self.admits(source, reference) <==> acyclic(self.edges.insert((source, reference))),
    {
        if !self.keys().is_empty() {
            let k = choose|k: K| self.keys().contains(k);
            let root = self.lemma_root_above(k);
            let leaf = self.lemma_leaf_below(k);
        }
        lemma_acyclic_insert(self.edges, source, reference);
    }

    /// In a coherent graph the roots reach every vertex, and nothing else.
    pub proof fn lemma_roots_reach_all(self)
        requires
            self.coherent(),
        ensures
            reached_from(self.edges, self.roots) == self.keys(),
    {
        let reached = reached_from(self.edges, self.roots);
        assert forall|k: K| reached.contains(k) <==> self.keys().contains(k) by {
            if reached.contains(k) {
                let s = choose|s: K| self.roots.contains(s) && #[trigger] reaches(self.edges, s, k);
                if s != k {
                    let m = lemma_reaches_last_hop(self.edges, s, k);
                }
            }
            if self.keys().contains(k) {
                let root = self.lemma_root_above(k);
            }
        }
        assert(reached =~= self.keys());
    }

    /// Where the vertices name the neighbours that the edges give them, the
    /// vertices under `keys` name as many references as edges leave `keys`.
    pub proof fn lemma_references_counted(self, keys: Set<K>)
        requires
            self.sound(),
            self.mirrors_edges(),
            keys.finite(),
            keys.subset_of(self.keys()),
        ensures
            self.references_named(keys) == leaving(self.edges, keys).len(),
        decreases keys.len(),
    {
        if keys.is_empty() {
            assert(leaving(self.edges, keys) =~= Set::<(K, K)>::empty());
        } else {
            let k = keys.choose();
            let rest = keys.remove(k);
            self.lemma_references_counted(rest);
            let out = leaving(self.edges, set![k]);
            let far = |e: (K, K)| e.1;
            lemma_len_subset(out, self.edges);
            lemma_len_subset(leaving(self.edges, rest), self.edges);
            assert(injective_on(far, out));
            assert(out.map(far) =~= self.vertices[k].references) by {
                assert forall|n: K| self.vertices[k].references.contains(n) implies out.map(
                    far,
                ).contains(n) by {
                    assert(out.contains((k, n)));
                    assert(far((k, n)) == n);
                }
            }
            lemma_map_size(out, self.vertices[k].references, far);
            assert(leaving(self.edges, keys) =~= leaving(self.edges, rest) + out);
            assert(leaving(self.edges, rest).disjoint(out));
            lemma_set_disjoint_lens(leaving(self.edges, rest), out);
        }
    }

    /// Where the vertices name the neighbours that the edges give them, the
    /// vertices under `keys` name as many sources as edges arrive in `keys`.
    pub proof fn lemma_sources_counted(self, keys: Set<K>)
        requires
            self.sound(),
            self.mirrors_edges(),
            keys.finite(),
            keys.subset_of(self.keys()),
        ensures
            self.sources_named(keys) == arriving(self.edges, keys).len(),
        decreases keys.len(),
    {
        if keys.is_empty() {
            assert(arriving(self.edges, keys) =~= Set::<(K, K)>::empty());
        } else {
            let k = keys.choose();
            let rest = keys.remove(k);
            self.lemma_sources_counted(rest);
            let into = arriving(self.edges, set![k]);
            let near = |e: (K, K)| e.0;
            lemma_len_subset(into, self.edges);
            lemma_len_subset(arriving(self.edges, rest), self.edges);
            assert(injective_on(near, into));
            assert(into.map(near) =~= self.vertices[k].sources) by {
                assert forall|n: K| self.vertices[k].sources.contains(n) implies into.map(
                    near,
                ).contains(n) by {
                    assert(into.contains((n, k)));
                    assert(near((n, k)) == n);
                }
            }
            lemma_map_size(into, self.vertices[k].sources, near);
            assert(arriving(self.edges, keys) =~= arriving(self.edges, rest) + into);
            assert(arriving(self.edges, rest).disjoint(into));
            lemma_set_disjoint_lens(arriving(self.edges, rest), into);
        }
    }

    /// In a coherent graph the vertices name as many references, all told,
    /// as the graph has edges, and as many sources.
    pub proof fn lemma_edges_counted(self)
        requires
            self.coherent(),
        ensures
            self.references_named(self.keys()) == self.edges.len(),
            self.sources_named(self.keys()) == self.edges.len(),
    {
        self.lemma_references_counted(self.keys());
        self.lemma_sources_counted(self.keys());
        assert forall|e: (K, K)| self.edges.contains(e) implies self.keys().contains(e.0)
            && self.keys().contains(e.1) by {
            assert(self.edges.contains((e.0, e.1)));
        }
        assert(leaving(self.edges, self.keys()) =~= self.edges);
        assert(arriving(self.edges, self.keys()) =~= self.edges);
    }

    /// A walk stays among the keys of the graph: it arrives only at keys of
    /// vertices, or stays where it began.
    pub proof fn lemma_reach_bound(self, direction: Direction, from: K)
        requires
            self.sound(),
        ensures
            reach_set(self.edges, direction, from).subset_of(self.keys().insert(from)),
            reach_set(self.edges, direction, from).finite(),
    {
        let reached = reach_set(self.edges, direction, from);
        assert forall|k: K| reached.contains(k) implies self.keys().insert(from).contains(k) by {
            if k != from {
                match direction {
                    Direction::Source => {
                        let m = lemma_reaches_first_hop(self.edges, k, from);
                    },
                    Direction::Reference => {
                        let m = lemma_reaches_last_hop(self.edges, from, k);
                    },
                }
            }
        }
        lemma_len_subset(reached, self.keys().insert(from));
    }

    /// Every step of a walk leaves fewer keys to arrive at.
    pub proof fn lemma_walk_shrinks(self, direction: Direction, from: K, next: K)
        requires
            self.sound(),
            steps(self.edges, direction, from, next),
        ensures
            reach_set(self.edges, direction, next).len() < reach_set(
                self.edges,
                direction,
                from,
            ).len(),
    {
        let near = reach_set(self.edges, direction, from);
        let far = reach_set(self.edges, direction, next);
        self.lemma_reach_bound(direction, from);
        lemma_walks_self(self.edges, direction, from);
        assert(near.contains(from));
        assert forall|k: K| far.contains(k) implies near.remove(from).contains(k) by {
            lemma_walks_after_step(self.edges, direction, from, next, k);
            if k == from {
                match direction {
                    Direction::Source => lemma_acyclic_edge(self.edges, next, from),
                    Direction::Reference => lemma_acyclic_edge(self.edges, from, next),
                }
            }
        }
        lemma_len_subset(far, near.remove(from));
    }
}

} // verus!
