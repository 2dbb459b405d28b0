use bulldag::edge::Edge;
use bulldag::graph::{BullDag, GraphError, GraphOk};
use bulldag::keyset::KeySet;
use bulldag::vertex::{Direction, Vertex};

fn keys_of(set: &KeySet<&'static str>) -> Vec<&'static str> {
    let mut keys: Vec<&'static str> = Vec::new();
    let mut i = 0;
    while i < set.len() {
        keys.push(*set.get(i));
        i += 1;
    }
    keys.sort();
    keys
}

fn sorted(mut keys: Vec<&'static str>) -> Vec<&'static str> {
    keys.sort();
    keys
}

fn diamond() -> BullDag<usize, &'static str> {
    let mut graph: BullDag<usize, &str> = BullDag::new();
    let v1: Vertex<usize, &str> = Vertex::new(5, "source");
    let v2: Vertex<usize, &str> = Vertex::new(4, "reference");
    let v3: Vertex<usize, &str> = Vertex::new(3, "ultimate_source");
    let v4: Vertex<usize, &str> = Vertex::new(2, "ref_reference");
    let v5: Vertex<usize, &str> = Vertex::new(1, "new_reference");
    let edges = vec![
        (&v1, &v2),
        (&v3, &v1),
        (&v3, &v2),
        (&v2, &v4),
        (&v2, &v5),
        (&v1, &v5),
    ];
    graph.extend_from_edges(&edges);
    graph
}

const DIAMOND_EDGES: [(&str, &str); 6] = [
    ("source", "reference"),
    ("ultimate_source", "source"),
    ("ultimate_source", "reference"),
    ("reference", "ref_reference"),
    ("reference", "new_reference"),
    ("source", "new_reference"),
];

#[test]
fn empty_graph_holds_nothing() {
    let graph: BullDag<usize, &str> = BullDag::new();
    assert_eq!(graph.len(), 0);
    assert!(graph.is_empty());
    assert_eq!(graph.n_edges(), 0);
    assert_eq!(graph.n_roots(), 0);
    assert_eq!(graph.n_leaves(), 0);
    assert!(graph.get_roots().is_empty());
    assert!(graph.get_leaves().is_empty());
    assert!(graph.get_vertex("source").is_none());
}

#[test]
fn default_graph_is_empty() {
    let graph: BullDag<String, u64> = BullDag::default();
    assert_eq!(graph.len(), 0);
    assert_eq!(graph.n_edges(), 0);
    assert_eq!(graph.n_roots(), 0);
    assert_eq!(graph.n_leaves(), 0);
}

#[test]
fn first_edge_puts_both_ends_in() {
    let mut graph: BullDag<usize, &str> = BullDag::new();
    let v1: Vertex<usize, &str> = Vertex::new(5, "source");
    let v2: Vertex<usize, &str> = Vertex::new(4, "reference");
    graph.add_edge(&(&v1, &v2));
    assert_eq!(graph.n_edges(), 1);
    assert_eq!(graph.len(), 2);
    assert!(!graph.is_empty());
    assert_eq!(keys_of(&graph.get_roots()), vec!["source"]);
    assert_eq!(keys_of(&graph.get_leaves()), vec!["reference"]);
    let source = graph.get_vertex("source").unwrap();
    assert_eq!(source.get_data(), 5);
    assert_eq!(source.n_sources(), 0);
    assert_eq!(source.get_references(), vec![&"reference"]);
    let reference = graph.get_vertex("reference").unwrap();
    assert_eq!(reference.get_data(), 4);
    assert_eq!(reference.n_references(), 0);
    assert_eq!(reference.get_sources(), vec![&"source"]);
    // The submitted vertices are copied, not changed.
    assert_eq!(v1.n_references(), 0);
    assert_eq!(v2.n_sources(), 0);
}

#[test]
fn two_references_of_one_source() {
    let mut graph: BullDag<usize, &str> = BullDag::new();
    let v1: Vertex<usize, &str> = Vertex::new(5, "source");
    let v2: Vertex<usize, &str> = Vertex::new(4, "reference_1");
    let v3: Vertex<usize, &str> = Vertex::new(3, "reference_2");
    let edges = vec![(&v1, &v2), (&v1, &v3)];
    graph.extend_from_edges(&edges);
    assert!(graph.len() == 3);
    assert!(graph.n_roots() == 1);
    assert!(graph.n_leaves() == 2);
}

#[test]
fn edge_from_a_key_to_itself_is_dropped() {
    let mut graph: BullDag<usize, &str> = BullDag::new();
    let v1: Vertex<usize, &str> = Vertex::new(5, "source");
    graph.add_edge(&(&v1, &v1));
    assert_eq!(graph.n_edges(), 0);
    assert_eq!(graph.len(), 0);
    assert_eq!(graph.n_roots(), 0);
    assert_eq!(graph.n_leaves(), 0);

    let v2: Vertex<usize, &str> = Vertex::new(4, "reference");
    graph.add_edge(&(&v1, &v2));
    graph.add_edge(&(&v2, &v2));
    graph.add_edge(&(&v1, &v1));
    assert_eq!(graph.n_edges(), 1);
    assert_eq!(graph.len(), 2);
    assert_eq!(graph.get_vertex("source").unwrap().n_sources(), 0);
    assert_eq!(graph.get_vertex("reference").unwrap().n_references(), 0);
}

#[test]
fn edge_back_to_a_source_is_dropped() {
    let mut graph: BullDag<usize, &str> = BullDag::new();
    let a: Vertex<usize, &str> = Vertex::new(1, "a");
    let b: Vertex<usize, &str> = Vertex::new(2, "b");
    graph.add_edge(&(&a, &b));
    graph.add_edge(&(&b, &a));
    assert_eq!(graph.n_edges(), 1);
    assert_eq!(keys_of(&graph.get_roots()), vec!["a"]);
    assert_eq!(keys_of(&graph.get_leaves()), vec!["b"]);
    assert_eq!(graph.get_vertex("a").unwrap().n_sources(), 0);
    assert_eq!(graph.get_vertex("b").unwrap().n_references(), 0);
}

#[test]
fn edge_back_to_a_far_ancestor_is_dropped() {
    let mut graph: BullDag<u8, u32> = BullDag::new();
    let vertices: Vec<Vertex<u8, u32>> = (0..6u32).map(|k| Vertex::new(0u8, k)).collect();
    let mut k = 0;
    while k < 5 {
        graph.add_edge(&(&vertices[k], &vertices[k + 1]));
        k += 1;
    }
    assert_eq!(graph.n_edges(), 5);
    graph.add_edge(&(&vertices[5], &vertices[0]));
    graph.add_edge(&(&vertices[4], &vertices[1]));
    graph.add_edge(&(&vertices[3], &vertices[2]));
    assert_eq!(graph.n_edges(), 5);
    assert_eq!(graph.len(), 6);
    // Shortcuts forward close no cycle.
    graph.add_edge(&(&vertices[0], &vertices[5]));
    graph.add_edge(&(&vertices[1], &vertices[4]));
    assert_eq!(graph.n_edges(), 7);
}

#[test]
fn same_edge_twice_changes_nothing() {
    let mut graph: BullDag<usize, &str> = BullDag::new();
    let v1: Vertex<usize, &str> = Vertex::new(5, "source");
    let v2: Vertex<usize, &str> = Vertex::new(4, "reference");
    let v3: Vertex<usize, &str> = Vertex::new(3, "other");
    graph.add_edge(&(&v1, &v2));
    graph.add_edge(&(&v1, &v3));
    let edges = graph.n_edges();
    let sources = graph.get_vertex("reference").unwrap().n_sources();
    let references = graph.get_vertex("source").unwrap().n_references();
    assert_eq!((edges, sources, references), (2, 1, 2));
    graph.add_edge(&(&v1, &v2));
    assert_eq!(graph.n_edges(), 2);
    assert_eq!(graph.len(), 3);
    assert_eq!(graph.get_vertex("reference").unwrap().n_sources(), 1);
    assert_eq!(graph.get_vertex("reference").unwrap().n_references(), 0);
    assert_eq!(graph.get_vertex("source").unwrap().n_references(), 2);
    assert_eq!(graph.get_vertex("source").unwrap().n_sources(), 0);
    assert_eq!(keys_of(&graph.get_roots()), vec!["source"]);
    assert_eq!(keys_of(&graph.get_leaves()), vec!["other", "reference"]);
}

#[test]
fn roots_and_leaves_follow_the_edges() {
    let graph = diamond();
    assert_eq!(graph.len(), 5);
    assert_eq!(graph.n_edges(), 6);
    assert_eq!(graph.n_roots(), 1);
    assert_eq!(graph.n_leaves(), 2);
    assert_eq!(keys_of(&graph.get_roots()), vec!["ultimate_source"]);
    assert_eq!(keys_of(&graph.get_leaves()), vec!["new_reference", "ref_reference"]);
    let roots = graph.get_roots();
    let leaves = graph.get_leaves();
    for key in ["source", "reference", "ultimate_source", "ref_reference", "new_reference"] {
        let vertex = graph.get_vertex(key).unwrap();
        assert_eq!(vertex.get_index(), key);
        assert_eq!(roots.contains(&key), vertex.n_sources() == 0);
        assert_eq!(leaves.contains(&key), vertex.n_references() == 0);
        for (from, to) in DIAMOND_EDGES {
            assert_eq!(vertex.is_reference(&to) && key == from, key == from);
            assert_eq!(vertex.is_source(&from) && key == to, key == to);
        }
    }
}

#[test]
fn roots_and_leaves_follow_each_insertion() {
    let mut graph: BullDag<u8, &str> = BullDag::new();
    let a: Vertex<u8, &str> = Vertex::new(0, "a");
    let b: Vertex<u8, &str> = Vertex::new(0, "b");
    let c: Vertex<u8, &str> = Vertex::new(0, "c");
    graph.add_edge(&(&b, &c));
    assert_eq!(keys_of(&graph.get_roots()), vec!["b"]);
    assert_eq!(keys_of(&graph.get_leaves()), vec!["c"]);
    graph.add_edge(&(&a, &b));
    assert_eq!(keys_of(&graph.get_roots()), vec!["a"]);
    assert_eq!(keys_of(&graph.get_leaves()), vec!["c"]);
    graph.add_edge(&(&a, &c));
    assert_eq!(keys_of(&graph.get_roots()), vec!["a"]);
    assert_eq!(keys_of(&graph.get_leaves()), vec!["c"]);
    // A dropped edge moves nothing.
    graph.add_edge(&(&c, &a));
    assert_eq!(keys_of(&graph.get_roots()), vec!["a"]);
    assert_eq!(keys_of(&graph.get_leaves()), vec!["c"]);
    assert_eq!(graph.n_edges(), 3);
}

#[test]
fn lone_vertex_is_root_and_leaf() {
    let mut graph: BullDag<usize, &str> = BullDag::new();
    let v1: Vertex<usize, &str> = Vertex::new(5, "alone");
    graph.add_vertex(&v1);
    assert_eq!(graph.len(), 1);
    assert_eq!(graph.n_edges(), 0);
    assert_eq!(keys_of(&graph.get_roots()), vec!["alone"]);
    assert_eq!(keys_of(&graph.get_leaves()), vec!["alone"]);
    assert_eq!(graph.get_vertex("alone").unwrap().get_data(), 5);
}

#[test]
fn vertex_put_in_again_replaces_the_payload() {
    let mut graph: BullDag<usize, &str> = BullDag::new();
    graph.add_vertex(&Vertex::new(5, "alone"));
    graph.add_vertex(&Vertex::new(6, "alone"));
    assert_eq!(graph.len(), 1);
    assert_eq!(graph.n_roots(), 1);
    assert_eq!(graph.n_leaves(), 1);
    assert_eq!(graph.get_vertex("alone").unwrap().get_data(), 6);
}

#[test]
fn vertex_put_in_over_a_root_is_listed_anew() {
    let mut graph: BullDag<usize, &str> = BullDag::new();
    graph.add_vertex(&Vertex::new(5, "k"));
    assert_eq!(keys_of(&graph.get_roots()), vec!["k"]);
    assert_eq!(keys_of(&graph.get_leaves()), vec!["k"]);
    let mut busy: Vertex<usize, &str> = Vertex::new(6, "k");
    busy.add_edge(&Edge::new("elsewhere", "k"));
    busy.add_edge(&Edge::new("k", "beyond"));
    graph.add_vertex(&busy);
    assert_eq!(graph.len(), 1);
    assert!(graph.get_roots().is_empty());
    assert!(graph.get_leaves().is_empty());
    assert_eq!(graph.n_roots(), 0);
    assert_eq!(graph.n_leaves(), 0);
    let kept = graph.get_vertex("k").unwrap();
    assert_eq!(kept.get_data(), 6);
    assert_eq!(kept.n_sources(), 1);
    assert_eq!(kept.n_references(), 1);
    // Put in without neighbours again, the key is a root and a leaf again.
    graph.add_vertex(&Vertex::new(7, "k"));
    assert_eq!(keys_of(&graph.get_roots()), vec!["k"]);
    assert_eq!(keys_of(&graph.get_leaves()), vec!["k"]);
    assert_eq!(graph.get_vertex("k").unwrap().get_data(), 7);
}

#[test]
fn vertex_with_a_source_put_in_over_a_root_is_no_root() {
    let mut graph: BullDag<u8, u32> = BullDag::new();
    graph.add_vertex(&Vertex::new(0, 1));
    let mut sourced: Vertex<u8, u32> = Vertex::new(0, 1);
    sourced.add_edge(&Edge::new(9, 1));
    graph.add_vertex(&sourced);
    let kept = graph.get_vertex(1).unwrap();
    assert_eq!(graph.get_roots().contains(&1), kept.n_sources() == 0);
    assert_eq!(graph.get_leaves().contains(&1), kept.n_references() == 0);
    assert!(!graph.get_roots().contains(&1));
    assert!(graph.get_leaves().contains(&1));
}

#[test]
fn vertex_with_a_reference_put_in_over_a_leaf_is_no_leaf() {
    let mut graph: BullDag<u8, u32> = BullDag::new();
    let a: Vertex<u8, u32> = Vertex::new(0, 1);
    let b: Vertex<u8, u32> = Vertex::new(0, 2);
    graph.add_edge(&(&a, &b));
    assert!(graph.get_leaves().contains(&2));
    let mut pointing: Vertex<u8, u32> = Vertex::new(0, 2);
    pointing.add_edge(&Edge::new(2, 7));
    graph.add_vertices(&[pointing]);
    assert!(!graph.get_leaves().contains(&2));
    assert!(graph.get_roots().contains(&2));
    assert!(graph.get_roots().contains(&1));
    assert_eq!(graph.n_leaves(), 0);
    for key in [1u32, 2u32] {
        let kept = graph.get_vertex(key).unwrap();
        assert_eq!(graph.get_roots().contains(&key), kept.n_sources() == 0);
        assert_eq!(graph.get_leaves().contains(&key), kept.n_references() == 0);
    }
}

#[test]
fn vertices_are_put_in_one_after_the_other() {
    let mut graph: BullDag<usize, u16> = BullDag::new();
    let mut busy: Vertex<usize, u16> = Vertex::new(30, 3);
    busy.add_edge(&Edge::new(9, 3));
    let batch = vec![Vertex::new(10, 1), Vertex::new(20, 2), busy, Vertex::new(11, 1)];
    graph.add_vertices(&batch);
    assert_eq!(graph.len(), 3);
    assert_eq!(graph.n_edges(), 0);
    assert_eq!(graph.n_roots(), 2);
    assert_eq!(graph.n_leaves(), 3);
    assert!(graph.get_roots().contains(&1));
    assert!(graph.get_roots().contains(&2));
    assert!(!graph.get_roots().contains(&3));
    assert_eq!(graph.get_vertex(1).unwrap().get_data(), 11);
    assert_eq!(graph.get_vertex(2).unwrap().get_data(), 20);
    assert_eq!(graph.get_vertex(3).unwrap().get_data(), 30);
    graph.add_vertices(&[]);
    assert_eq!(graph.len(), 3);
}

#[test]
fn graph_without_roots_accepts_no_edge() {
    let mut graph: BullDag<usize, &str> = BullDag::new();
    let mut busy: Vertex<usize, &str> = Vertex::new(1, "busy");
    busy.add_edge(&Edge::new("elsewhere", "busy"));
    graph.add_vertex(&busy);
    assert_eq!(graph.len(), 1);
    assert_eq!(graph.n_roots(), 0);
    assert_eq!(graph.n_leaves(), 1);
    let a: Vertex<usize, &str> = Vertex::new(2, "a");
    let b: Vertex<usize, &str> = Vertex::new(3, "b");
    assert!(matches!(graph.check_cycles(&(&a, &b)), Err(GraphError::WouldCycle)));
    graph.add_edge(&(&a, &b));
    assert_eq!(graph.n_edges(), 0);
    assert_eq!(graph.len(), 1);
    assert!(matches!(graph.topological_sort(), Err(GraphError::WouldCycle)));
}

#[test]
fn graph_without_leaves_accepts_no_edge() {
    let mut graph: BullDag<usize, &str> = BullDag::new();
    let mut busy: Vertex<usize, &str> = Vertex::new(1, "busy");
    busy.add_edge(&Edge::new("busy", "elsewhere"));
    graph.add_vertex(&busy);
    assert_eq!(graph.n_roots(), 1);
    assert_eq!(graph.n_leaves(), 0);
    let a: Vertex<usize, &str> = Vertex::new(2, "a");
    let b: Vertex<usize, &str> = Vertex::new(3, "b");
    assert!(matches!(graph.check_cycles(&(&a, &b)), Err(GraphError::WouldCycle)));
    graph.extend_from_edges(&[(&a, &b), (&b, &a)]);
    assert_eq!(graph.n_edges(), 0);
    assert_eq!(graph.len(), 1);
    assert!(matches!(graph.topological_sort(), Err(GraphError::WouldCycle)));
}

#[test]
fn check_tells_whether_an_edge_is_admitted() {
    let graph = diamond();
    let source: Vertex<usize, &str> = Vertex::new(0, "source");
    let reference: Vertex<usize, &str> = Vertex::new(0, "reference");
    let top: Vertex<usize, &str> = Vertex::new(0, "ultimate_source");
    let bottom: Vertex<usize, &str> = Vertex::new(0, "ref_reference");
    let fresh: Vertex<usize, &str> = Vertex::new(0, "fresh");
    assert!(matches!(graph.check_cycles(&(&top, &bottom)), Ok(GraphOk::Done)));
    assert!(matches!(graph.check_cycles(&(&source, &reference)), Ok(GraphOk::Done)));
    assert!(matches!(graph.check_cycles(&(&fresh, &top)), Ok(GraphOk::Done)));
    assert!(matches!(graph.check_cycles(&(&bottom, &fresh)), Ok(GraphOk::Done)));
    assert!(matches!(graph.check_cycles(&(&bottom, &top)), Err(GraphError::WouldCycle)));
    assert!(matches!(graph.check_cycles(&(&reference, &source)), Err(GraphError::WouldCycle)));
    assert!(matches!(graph.check_cycles(&(&fresh, &fresh)), Err(GraphError::WouldCycle)));
    assert!(matches!(graph.check_cycles(&(&source, &source)), Err(GraphError::WouldCycle)));
    // A check changes nothing.
    assert_eq!(graph.n_edges(), 6);
    assert_eq!(graph.len(), 5);
}

#[test]
fn check_on_an_empty_graph() {
    let graph: BullDag<usize, u8> = BullDag::new();
    let a: Vertex<usize, u8> = Vertex::new(0, 1);
    let b: Vertex<usize, u8> = Vertex::new(0, 2);
    assert!(matches!(graph.check_cycles(&(&a, &b)), Ok(GraphOk::Done)));
    assert!(matches!(graph.check_cycles(&(&a, &a)), Err(GraphError::WouldCycle)));
}

#[test]
fn trace_towards_the_sources_gives_the_ancestors() {
    let graph = diamond();
    let target: Vertex<usize, &str> = Vertex::new(0, "new_reference");
    let trace = graph.trace(&target, Direction::Source);
    assert_eq!(trace.last(), Some(&"new_reference"));
    assert_eq!(
        sorted(trace.clone()),
        vec!["new_reference", "reference", "source", "ultimate_source"]
    );
    assert_eq!(trace, vec!["ultimate_source", "source", "reference", "new_reference"]);
    let top: Vertex<usize, &str> = Vertex::new(0, "ultimate_source");
    assert_eq!(graph.trace(&top, Direction::Source), vec!["ultimate_source"]);
}

#[test]
fn trace_towards_the_references_gives_the_descendants() {
    let graph = diamond();
    let target: Vertex<usize, &str> = Vertex::new(0, "source");
    let trace = graph.trace(&target, Direction::Reference);
    assert_eq!(trace.last(), Some(&"source"));
    assert_eq!(
        sorted(trace.clone()),
        vec!["new_reference", "ref_reference", "reference", "source"]
    );
    // No key stands before a key that it reaches.
    for (from, to) in DIAMOND_EDGES {
        let at_from = trace.iter().position(|k| *k == from);
        let at_to = trace.iter().position(|k| *k == to);
        if let (Some(i), Some(j)) = (at_from, at_to) {
            assert!(j < i);
        }
    }
    let bottom: Vertex<usize, &str> = Vertex::new(0, "ref_reference");
    assert_eq!(graph.trace(&bottom, Direction::Reference), vec!["ref_reference"]);
}

#[test]
fn trace_of_a_key_outside_the_graph_is_the_key() {
    let graph = diamond();
    let stranger: Vertex<usize, &str> = Vertex::new(0, "stranger");
    assert_eq!(graph.trace(&stranger, Direction::Source), vec!["stranger"]);
    assert_eq!(graph.trace(&stranger, Direction::Reference), vec!["stranger"]);
    let empty: BullDag<usize, &str> = BullDag::new();
    assert_eq!(empty.trace(&stranger, Direction::Source), vec!["stranger"]);
}

#[test]
fn topological_order_of_the_diamond() {
    let graph = diamond();
    match graph.topological_sort() {
        Ok(GraphOk::VecRes(order)) => {
            assert_eq!(
                order,
                vec!["ultimate_source", "source", "reference", "new_reference", "ref_reference"]
            );
        }
        _ => panic!("no order"),
    }
}

#[test]
fn topological_order_puts_sources_first() {
    let mut graph: BullDag<u8, u32> = BullDag::new();
    let vertices: Vec<Vertex<u8, u32>> = (0..9u32).map(|k| Vertex::new(0u8, k)).collect();
    let wanted: [(usize, usize); 12] = [
        (7, 8),
        (0, 3),
        (1, 3),
        (3, 4),
        (3, 5),
        (2, 5),
        (5, 6),
        (4, 6),
        (6, 7),
        (0, 8),
        (8, 0),
        (6, 1),
    ];
    for (from, to) in wanted {
        graph.add_edge(&(&vertices[from], &vertices[to]));
    }
    assert_eq!(graph.n_edges(), 10);
    assert_eq!(graph.len(), 9);
    assert_eq!(graph.n_roots(), 3);
    assert_eq!(graph.n_leaves(), 1);
    match graph.topological_sort() {
        Ok(GraphOk::VecRes(order)) => {
            assert_eq!(order.len(), 9);
            for k in 0..9u32 {
                assert_eq!(order.iter().filter(|x| **x == k).count(), 1);
            }
            for (from, to) in &wanted[..10] {
                let i = order.iter().position(|k| *k == *from as u32).unwrap();
                let j = order.iter().position(|k| *k == *to as u32).unwrap();
                assert!(i < j);
            }
        }
        _ => panic!("no order"),
    }
}

#[test]
fn topological_sort_of_an_empty_graph_fails() {
    let graph: BullDag<usize, &str> = BullDag::new();
    assert!(matches!(graph.topological_sort(), Err(GraphError::WouldCycle)));
}

#[test]
fn topological_order_of_lone_vertices() {
    let mut graph: BullDag<usize, u8> = BullDag::new();
    graph.add_vertices(&[Vertex::new(0, 3), Vertex::new(0, 1), Vertex::new(0, 2)]);
    match graph.topological_sort() {
        Ok(GraphOk::VecRes(mut order)) => {
            order.sort();
            assert_eq!(order, vec![1, 2, 3]);
        }
        _ => panic!("no order"),
    }
}

#[test]
fn batch_passes_over_the_edges_that_close_a_cycle() {
    let mut graph: BullDag<u8, &str> = BullDag::new();
    let a: Vertex<u8, &str> = Vertex::new(1, "a");
    let b: Vertex<u8, &str> = Vertex::new(2, "b");
    let c: Vertex<u8, &str> = Vertex::new(3, "c");
    let d: Vertex<u8, &str> = Vertex::new(4, "d");
    graph.extend_from_edges(&[(&a, &b), (&b, &a), (&b, &c), (&c, &a), (&d, &d), (&c, &d)]);
    assert_eq!(graph.n_edges(), 3);
    assert_eq!(graph.len(), 4);
    assert_eq!(keys_of(&graph.get_roots()), vec!["a"]);
    assert_eq!(keys_of(&graph.get_leaves()), vec!["d"]);
    graph.extend_from_edges(&[]);
    assert_eq!(graph.n_edges(), 3);
}

#[test]
fn stored_payload_outlives_later_submissions() {
    let mut graph: BullDag<&str, u8> = BullDag::new();
    let first: Vertex<&str, u8> = Vertex::new("first", 1);
    let other: Vertex<&str, u8> = Vertex::new("other", 2);
    graph.add_edge(&(&first, &other));
    let mut again: Vertex<&str, u8> = Vertex::new("again", 1);
    again.add_edge(&Edge::new(1, 77));
    let third: Vertex<&str, u8> = Vertex::new("third", 3);
    graph.add_edge(&(&again, &third));
    let kept = graph.get_vertex(1).unwrap();
    assert_eq!(kept.get_data(), "first");
    assert_eq!(kept.n_references(), 2);
    assert!(kept.is_reference(&2));
    assert!(kept.is_reference(&3));
    assert!(!kept.is_reference(&77));
    assert_eq!(graph.get_vertex(3).unwrap().get_data(), "third");
}

#[test]
fn missing_end_comes_in_as_submitted() {
    let mut graph: BullDag<usize, &str> = BullDag::new();
    let mut busy: Vertex<usize, &str> = Vertex::new(1, "busy");
    busy.add_edge(&Edge::new("busy", "elsewhere"));
    let fresh: Vertex<usize, &str> = Vertex::new(2, "fresh");
    graph.add_edge(&(&fresh, &busy));
    assert_eq!(graph.n_edges(), 1);
    assert_eq!(graph.len(), 2);
    let kept = graph.get_vertex("busy").unwrap();
    assert_eq!(sorted(kept.get_sources().into_iter().copied().collect()), vec!["fresh"]);
    assert_eq!(sorted(kept.get_references().into_iter().copied().collect()), vec!["elsewhere"]);
    assert_eq!(keys_of(&graph.get_roots()), vec!["fresh"]);
    assert!(graph.get_leaves().is_empty());
}

#[test]
fn handle_on_a_vertex_reaches_the_stored_vertex() {
    let mut graph = diamond();
    assert!(graph.get_vertex_mut("stranger").is_none());
    match graph.get_vertex_mut("ref_reference") {
        Some(vertex) => {
            assert_eq!(vertex.get_data(), 2);
            vertex.add_edge(&Edge::new("ref_reference", "beyond"));
        }
        None => panic!("Vertex not found"),
    }
    let kept = graph.get_vertex("ref_reference").unwrap();
    assert!(kept.is_reference(&"beyond"));
    assert_eq!(kept.n_references(), 1);
    // The lists are the caller's to mend: the graph still lists the key.
    assert!(graph.get_leaves().contains(&"ref_reference"));
    assert_eq!(graph.len(), 5);
    assert_eq!(graph.n_edges(), 6);
}

#[test]
fn graph_clone_is_independent() {
    let graph = diamond();
    let mut copy = graph.clone();
    assert_eq!(copy.len(), 5);
    assert_eq!(copy.n_edges(), 6);
    assert_eq!(keys_of(&copy.get_roots()), vec!["ultimate_source"]);
    assert_eq!(keys_of(&copy.get_leaves()), vec!["new_reference", "ref_reference"]);
    assert_eq!(copy.get_vertex("source").unwrap().get_data(), 5);
    assert!(copy.get_vertex("source").unwrap().is_source(&"ultimate_source"));
    let a: Vertex<usize, &str> = Vertex::new(9, "ref_reference");
    let b: Vertex<usize, &str> = Vertex::new(8, "extra");
    copy.add_edge(&(&a, &b));
    assert_eq!(copy.len(), 6);
    assert_eq!(copy.n_edges(), 7);
    assert_eq!(graph.len(), 5);
    assert_eq!(graph.n_edges(), 6);
    assert!(graph.get_vertex("extra").is_none());
}

#[test]
fn graph_over_owned_strings() {
    let mut graph: BullDag<u8, String> = BullDag::new();
    let a: Vertex<u8, String> = Vertex::new(1, String::from("a"));
    let b: Vertex<u8, String> = Vertex::new(2, String::from("b"));
    graph.add_edge(&(&a, &b));
    graph.add_edge(&(&b, &a));
    assert_eq!(graph.n_edges(), 1);
    assert!(graph.get_vertex(String::from("a")).unwrap().is_reference(&String::from("b")));
}

#[test]
fn graph_over_byte_arrays() {
    let mut graph: BullDag<u8, [u8; 32]> = BullDag::new();
    let mut low = [0u8; 32];
    low[31] = 1;
    let mut high = [0u8; 32];
    high[0] = 1;
    let a: Vertex<u8, [u8; 32]> = Vertex::new(1, low);
    let b: Vertex<u8, [u8; 32]> = Vertex::new(2, high);
    graph.add_edge(&(&a, &b));
    graph.add_edge(&(&b, &a));
    graph.add_edge(&(&a, &b));
    assert_eq!(graph.n_edges(), 1);
    assert_eq!(graph.len(), 2);
    assert!(graph.get_roots().contains(&low));
    assert!(graph.get_leaves().contains(&high));
}

#[test]
fn every_objection_has_a_name() {
    let all = vec![
        GraphError::WouldCycle,
        GraphError::NonExistentSource,
        GraphError::NonExistentReference,
        GraphError::NonExistentVertex,
        GraphError::NoEdges,
        GraphError::Other(String::from("message")),
    ];
    let names: Vec<String> = all.iter().map(|e| format!("{:?}", e)).collect();
    assert_eq!(
        names,
        vec![
            "WouldCycle",
            "NonExistentSource",
            "NonExistentReference",
            "NonExistentVertex",
            "NoEdges",
            "Other(\"message\")",
        ]
    );
}

#[test]
fn keys_and_edges_can_be_listed() {
    let graph = diamond();
    assert_eq!(
        keys_of(&graph.get_keys()),
        vec!["new_reference", "ref_reference", "reference", "source", "ultimate_source"]
    );
    let edges = graph.get_edges();
    assert_eq!(edges.len(), 6);
    for (from, to) in DIAMOND_EDGES {
        assert!(edges.contains(&Edge::new(from, to)));
        assert!(!edges.contains(&Edge::new(to, from)));
    }
    let empty: BullDag<usize, &str> = BullDag::new();
    assert!(empty.get_keys().is_empty());
    assert!(empty.get_edges().is_empty());
}

#[test]
fn topological_order_holds_every_vertex() {
    let graph = diamond();
    match graph.topological_sort() {
        Ok(GraphOk::VecRes(order)) => {
            assert_eq!(sorted(order.clone()), keys_of(&graph.get_keys()));
            for (from, to) in DIAMOND_EDGES {
                let i = order.iter().position(|k| *k == from).unwrap();
                let j = order.iter().position(|k| *k == to).unwrap();
                assert!(i < j);
            }
        }
        _ => panic!("no order"),
    }
}

#[test]
fn neighbours_are_counted_once_per_edge() {
    let graph = diamond();
    let keys = graph.get_keys();
    let mut references = 0;
    let mut sources = 0;
    let mut i = 0;
    while i < keys.len() {
        let vertex = graph.get_vertex(*keys.get(i)).unwrap();
        references += vertex.n_references();
        sources += vertex.n_sources();
        i += 1;
    }
    assert_eq!(references, 6);
    assert_eq!(sources, 6);
    assert_eq!(graph.n_edges(), 6);
}
