//! The compact row-offset (CSR) graph: three parallel arrays, a validation
//! predicate, and the walk/reachability vocabulary the solver's contracts use.

use vstd::prelude::*;

verus! {

/// Mathematical shape of a CSR graph: the two counts and the three arrays as
/// sequences. Contracts and lemmas speak of this shape, never of the heap
/// layout of the executable type.
pub struct GraphShape {
    pub node_count: int,
    pub edge_count: int,
    pub offsets: Seq<u32>,
    pub destinations: Seq<u32>,
    pub weights: Seq<i64>,
}

impl GraphShape {
    /// Every weight is non-negative. Shortest-path optimality holds only under
    /// this condition; the solver itself runs (with defined output) without it.
    pub open spec fn nonneg_weights(self) -> bool {
        forall|e: int| 0 <= e < self.weights.len() ==> (#[trigger] self.weights[e]) >= 0
    }

    /// Exactly what `SparseGraph::validate` reports: array lengths agree with
    /// the counts, offsets are non-decreasing, destinations are in range, and
    /// weights are non-negative.
    pub open spec fn valid(self) -> bool {
        &&& self.offsets.len() == self.node_count + 1
        &&& self.destinations.len() == self.edge_count
        &&& self.weights.len() == self.edge_count
        &&& forall|i: int|
            0 <= i < self.node_count ==> (#[trigger] self.offsets[i]) <= self.offsets[i + 1]
        &&& forall|e: int|
            0 <= e < self.destinations.len() ==> (#[trigger] self.destinations[e]) < self.node_count
        &&& self.nonneg_weights()
    }

    /// Structural precondition of traversal: every edge range of every node
    /// lies inside the destination and weight arrays, and every destination is
    /// a node. Validation does not bound `offsets[node_count]` by the edge
    /// count, so this is not implied by `valid`; traversing a graph without it
    /// would index out of bounds, which callers must rule out.
    pub open spec fn csr_in_bounds(self) -> bool {
        &&& self.node_count >= 0
        &&& self.offsets.len() == self.node_count + 1
        &&& forall|i: int|
            0 <= i < self.node_count ==> (#[trigger] self.offsets[i]) <= self.offsets[i + 1]
        &&& self.offsets[self.node_count] as int <= self.destinations.len()
        &&& self.offsets[self.node_count] as int <= self.weights.len()
        &&& forall|e: int|
            0 <= e < self.destinations.len() ==> (#[trigger] self.destinations[e]) < self.node_count
    }

    /// Number of outgoing edges of node `u`.
    pub open spec fn outdeg(self, u: int) -> int {
        self.offsets[u + 1] - self.offsets[u]
    }

    /// `e` is an index of an outgoing edge of node `u`.
    pub open spec fn edge_of(self, e: int, u: int) -> bool {
        &&& 0 <= u < self.node_count
        &&& self.offsets[u] <= e < self.offsets[u + 1]
    }

    /// Head of edge `e`.
    pub open spec fn edge_dst(self, e: int) -> int {
        self.destinations[e] as int
    }

    /// Weight of edge `e`.
    pub open spec fn edge_weight(self, e: int) -> int {
        self.weights[e] as int
    }

    /// Some edge leads from `u` to `v`.
    pub open spec fn has_edge(self, u: int, v: int) -> bool {
        exists|e: int| #[trigger] self.edge_of(e, u) && self.edge_dst(e) == v
    }

    /// `p` is a walk: at least one node, all nodes in range, consecutive nodes
    /// joined by edges.
    pub open spec fn is_walk(self, p: Seq<int>) -> bool {
        &&& p.len() >= 1
        &&& forall|i: int| 0 <= i < p.len() ==> 0 <= #[trigger] p[i] < self.node_count
        &&& forall|i: int| 0 <= i < p.len() - 1 ==> self.has_edge(#[trigger] p[i], p[i + 1])
    }

    /// Some walk leads from `s` to `t`.
    pub open spec fn reachable(self, s: int, t: int) -> bool {
        exists|p: Seq<int>| #[trigger] self.is_walk(p) && p.first() == s && p.last() == t
    }

    /// Every node reaches itself by the one-node walk.
    pub proof fn lemma_reachable_refl(self, s: int)
        requires
            0 <= s < self.node_count,
        ensures
            self.reachable(s, s),
    {
        let p = seq![s];
        assert(self.is_walk(p));
        assert(p.first() == s && p.last() == s);
    }

    /// Reachability extends along an edge.
    pub proof fn lemma_reachable_step(self, s: int, u: int, v: int)
        requires
            self.reachable(s, u),
            self.has_edge(u, v),
            0 <= v < self.node_count,
        ensures
            self.reachable(s, v),
    {
        let p = choose|p: Seq<int>| #[trigger] self.is_walk(p) && p.first() == s && p.last() == u;
        let q = p.push(v);
        assert forall|i: int| 0 <= i < q.len() - 1 implies self.has_edge(#[trigger] q[i], q[i + 1]) by {
            if i < p.len() - 1 {
                assert(self.has_edge(p[i], p[i + 1]));
            } else {
                assert(q[i] == u && q[i + 1] == v);
            }
        }
        assert(self.is_walk(q));
        assert(q.first() == s && q.last() == v);
    }

    /// Non-decreasing offsets compose: `offsets[i] <= offsets[j]` for `i <= j`.
    pub proof fn lemma_offsets_chain(self, i: int, j: int)
        requires
            self.offsets.len() == self.node_count + 1,
            forall|k: int|
                0 <= k < self.node_count ==> (#[trigger] self.offsets[k]) <= self.offsets[k + 1],
            0 <= i <= j <= self.node_count,
        ensures
            self.offsets[i] <= self.offsets[j],
        decreases j - i,
    {
        if i < j {
            self.lemma_offsets_chain(i + 1, j);
            assert(self.offsets[i] <= self.offsets[i + 1]);
        }
    }
}

/// Compressed sparse row graph. Owns its arrays; once handed to a solver it is
/// treated as immutable. Construction never validates: callers must run
/// `validate` (directly or through `preprocess`) before relying on solve
/// output, and traversal additionally assumes `csr_in_bounds`, checkable with
/// `edges_in_bounds`.
#[derive(Debug, Clone)]
pub struct SparseGraph {
    pub node_count: usize,
    pub edge_count: usize,
    pub outgoing_edges: Vec<u32>,
    pub destinations: Vec<u32>,
    pub weights: Vec<i64>,
}

impl View for SparseGraph {
    type V = GraphShape;

    open spec fn view(&self) -> GraphShape {
        GraphShape {
            node_count: self.node_count as int,
            edge_count: self.edge_count as int,
            offsets: self.outgoing_edges@,
            destinations: self.destinations@,
            weights: self.weights@,
        }
    }
}

impl SparseGraph {
    /// Create a graph from pre-built arrays; the edge count is the length of
    /// `destinations`. No validation happens here.
    pub fn new(
        node_count: usize,
        outgoing_edges: Vec<u32>,
        destinations: Vec<u32>,
        weights: Vec<i64>,
    ) -> (g: SparseGraph)
        ensures
            (g@ == GraphShape {
                node_count: node_count as int,
                edge_count: destinations@.len() as int,
                offsets: outgoing_edges@,
                destinations: destinations@,
                weights: weights@,
            }),
    {
        let edge_count = destinations.len();
        SparseGraph { node_count, edge_count, outgoing_edges, destinations, weights }
    }

    /// Number of nodes.
    pub fn node_count(&self) -> (r: usize)
        ensures
            r as int == self@.node_count,
    {
        self.node_count
    }

    /// Number of edges.
    pub fn edge_count(&self) -> (r: usize)
        ensures
            r as int == self@.edge_count,
    {
        self.edge_count
    }

    /// Check the graph invariants in order, stopping at the first failure:
    /// offsets length, edge-array lengths, offset monotonicity, destination
    /// range, weight sign. Returns `true` exactly when the graph is valid.
    ///
    /// A host weight that is not a finite number has no representation in the
    /// fixed-point weight type; an adapter maps such a weight to a negative
    /// sentinel, which this check rejects.
    pub fn validate(&self) -> (r: bool)
        ensures
            r == self@.valid(),
    {
        if self.outgoing_edges.len() == 0 || self.outgoing_edges.len() - 1 != self.node_count {
            return false;
        }
        if self.destinations.len() != self.edge_count || self.weights.len() != self.edge_count {
            return false;
        }
        let n = self.node_count;
        let mut i: usize = 0;
        while i < n
            invariant
                i <= n,
                self@.offsets.len() == n + 1,
                forall|k: int| 0 <= k < i ==> (#[trigger] self@.offsets[k]) <= self@.offsets[k + 1],
            decreases n - i,
        {
            if self.outgoing_edges[i] > self.outgoing_edges[i + 1] {
                return false;
            }
            i += 1;
        }
        let m = self.destinations.len();
        let mut e: usize = 0;
        while e < m
            invariant
                e <= m,
                m == self@.destinations.len(),
                n == self@.node_count,
                forall|k: int| 0 <= k < e ==> (#[trigger] self@.destinations[k]) < n,
            decreases m - e,
        {
            if self.destinations[e] as usize >= n {
                return false;
            }
            e += 1;
        }
        let mw = self.weights.len();
        let mut w: usize = 0;
        while w < mw
            invariant
                w <= mw,
                mw == self@.weights.len(),
                forall|k: int| 0 <= k < w ==> (#[trigger] self@.weights[k]) >= 0,
            decreases mw - w,
        {
            if self.weights[w] < 0 {
                return false;
            }
            w += 1;
        }
        true
    }

    /// Check the structural precondition of traversal: every edge range lies
    /// inside the destination and weight arrays. `solve` and `preprocess`
    /// assume this; a caller that cannot guarantee it checks here first.
    pub fn edges_in_bounds(&self) -> (r: bool)
        ensures
            r == self@.csr_in_bounds(),
    {
        if self.outgoing_edges.len() == 0 || self.outgoing_edges.len() - 1 != self.node_count {
            return false;
        }
        let n = self.node_count;
        let mut i: usize = 0;
        while i < n
            invariant
                i <= n,
                self@.offsets.len() == n + 1,
                forall|k: int| 0 <= k < i ==> (#[trigger] self@.offsets[k]) <= self@.offsets[k + 1],
            decreases n - i,
        {
            if self.outgoing_edges[i] > self.outgoing_edges[i + 1] {
                return false;
            }
            i += 1;
        }
        let last = self.outgoing_edges[n] as usize;
        if last > self.destinations.len() || last > self.weights.len() {
            return false;
        }
        let m = self.destinations.len();
        let mut e: usize = 0;
        while e < m
            invariant
                e <= m,
                m == self@.destinations.len(),
                n == self@.node_count,
                forall|k: int| 0 <= k < e ==> (#[trigger] self@.destinations[k]) < n,
            decreases m - e,
        {
            if self.destinations[e] as usize >= n {
                return false;
            }
            e += 1;
        }
        true
    }
}

} // verus!
