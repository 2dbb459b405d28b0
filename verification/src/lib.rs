//! A directed acyclic graph that is kept acyclic as it grows.
//!
//! A graph holds vertices, each a payload under a key, and directed edges
//! between keys. Edges are submitted one at a time; an edge that would close
//! a cycle is dropped. The graph lists its roots and its leaves, traces the
//! ancestors and the descendants of a vertex, and sorts its vertices
//! topologically.
//!
//! What the operations do is stated over the shape of the graph, a plain
//! mathematical value, and proved: see `shape` for the shape and for what
//! holds of every graph, and `graph` for the operations.

pub mod edge;
pub mod graph;
pub mod index;
pub mod keyset;
pub mod shape;
pub mod vertex;
