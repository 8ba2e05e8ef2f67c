//! A single-source shortest-path engine over compact row-offset (CSR) graphs.
//!
//! The crate holds an immutable sparse graph representation with an explicit
//! validation step, a Dijkstra solver with a lazy-deletion priority queue, a
//! hierarchical clustering preprocessing step kept as an extension point, and
//! the proof obligations that tie the solver's output to the graph: edge-wise
//! optimality, predecessor-chain structure, and exact visit/relaxation counts.

pub mod counting;
pub mod decomposition;
pub mod graph;
pub mod laws;
pub mod pqueue;
pub mod result;
pub mod solver;
