//! Output bundle of a solve: distances, predecessors, the two counters, and
//! the tag of the routine that produced them. Immutable after construction.

use vstd::prelude::*;

verus! {

/// Cost of reaching a node: a finite fixed-point cost, or the "unreachable"
/// sentinel standing for an infinite distance.
#[derive(Clone, Copy, Debug, PartialEq, Eq)]
pub enum Dist {
    Finite(i128),
    Unreachable,
}

impl Dist {
    /// The cost is finite.
    pub open spec fn is_finite(self) -> bool {
        self is Finite
    }

    /// The finite cost; meaningless on the sentinel.
    pub open spec fn val(self) -> int {
        match self {
            Dist::Finite(d) => d as int,
            Dist::Unreachable => 0,
        }
    }
}

/// Which solve routine produced a result.
#[derive(Clone, Copy, Debug, PartialEq, Eq)]
pub enum AlgorithmTag {
    DijkstraOptimized,
    EnhancedSssp,
}

/// The source index handed to `solve` was not below the node count.
#[derive(Clone, Copy, Debug, PartialEq, Eq)]
pub struct InvalidSourceError {
    pub source: usize,
}

/// Mathematical shape of a solve result.
pub struct ResultShape {
    pub distances: Seq<Dist>,
    pub predecessors: Seq<Option<usize>>,
    pub nodes_visited: u64,
    pub edges_relaxed: u64,
    pub algorithm_used: AlgorithmTag,
}

/// Result of one single-source shortest-path solve. Created fresh per call
/// and never mutated afterwards.
#[derive(Debug)]
pub struct SSSpResult {
    distances: Vec<Dist>,
    predecessors: Vec<Option<usize>>,
    nodes_visited: u64,
    edges_relaxed: u64,
    algorithm_used: AlgorithmTag,
}

impl View for SSSpResult {
    type V = ResultShape;

    closed spec fn view(&self) -> ResultShape {
        ResultShape {
            distances: self.distances@,
            predecessors: self.predecessors@,
            nodes_visited: self.nodes_visited,
            edges_relaxed: self.edges_relaxed,
            algorithm_used: self.algorithm_used,
        }
    }
}

impl SSSpResult {
    /// Bundle the pieces a solve computed.
    pub(crate) fn assemble(
        distances: Vec<Dist>,
        predecessors: Vec<Option<usize>>,
        nodes_visited: u64,
        edges_relaxed: u64,
        algorithm_used: AlgorithmTag,
    ) -> (r: SSSpResult)
        ensures
            (r@ == ResultShape {
                distances: distances@,
                predecessors: predecessors@,
                nodes_visited,
                edges_relaxed,
                algorithm_used,
            }),
    {
        SSSpResult { distances, predecessors, nodes_visited, edges_relaxed, algorithm_used }
    }

    /// The same result under another tag.
    pub(crate) fn with_algorithm(self, algorithm_used: AlgorithmTag) -> (r: SSSpResult)
        ensures
            (r@ == ResultShape { algorithm_used, ..self@ }),
    {
        SSSpResult {
            distances: self.distances,
            predecessors: self.predecessors,
            nodes_visited: self.nodes_visited,
            edges_relaxed: self.edges_relaxed,
            algorithm_used,
        }
    }

    /// Distance of every node from the source.
    pub fn distances(&self) -> (r: &Vec<Dist>)
        ensures
            r@ == self@.distances,
    {
        &self.distances
    }

    /// Predecessor of every node on a shortest path, or `None`.
    pub fn predecessors(&self) -> (r: &Vec<Option<usize>>)
        ensures
            r@ == self@.predecessors,
    {
        &self.predecessors
    }

    /// How many nodes the solve settled.
    pub fn nodes_visited(&self) -> (r: u64)
        ensures
            r == self@.nodes_visited,
    {
        self.nodes_visited
    }

    /// How many relaxation attempts the solve made.
    pub fn edges_relaxed(&self) -> (r: u64)
        ensures
            r == self@.edges_relaxed,
    {
        self.edges_relaxed
    }

    /// Which routine produced this result.
    pub fn algorithm_used(&self) -> (r: AlgorithmTag)
        ensures
            r == self@.algorithm_used,
    {
        self.algorithm_used
    }
}

} // verus!
