//! Hierarchical decomposition: a partition of the nodes into fixed-capacity
//! clusters by ascending node index, with the boundary nodes of every
//! cluster. Built by `preprocess` as a prepared extension point; `solve` does
//! not consult it.

use crate::graph::GraphShape;
use vstd::prelude::*;

verus! {

/// One cluster of the partition: its id, its nodes in ascending order, and
/// the subset of its nodes that touch a cross-cluster edge.
#[derive(Debug, Clone, PartialEq, Eq)]
pub struct Cluster {
    pub id: usize,
    pub nodes: Vec<usize>,
    pub boundary_nodes: Vec<usize>,
}

/// The whole partition: the clusters in order, and for every node the id of
/// the cluster holding it.
#[derive(Debug, Clone, PartialEq, Eq)]
pub struct HierarchicalDecomposition {
    pub clusters: Vec<Cluster>,
    pub cluster_assignment: Vec<usize>,
}

/// Floor of the square root, defined by stepping up through `0 .. n`.
pub open spec fn spec_isqrt(n: nat) -> nat
    decreases n,
{
    if n == 0 {
        0
    } else {
        let r = spec_isqrt((n - 1) as nat);
        if (r + 1) * (r + 1) <= n {
            r + 1
        } else {
            r
        }
    }
}

/// `spec_isqrt` is the floor of the square root.
pub proof fn lemma_spec_isqrt(n: nat)
    ensures
        spec_isqrt(n) * spec_isqrt(n) <= n,
        n < (spec_isqrt(n) + 1) * (spec_isqrt(n) + 1),
    decreases n,
{
    if n > 0 {
        lemma_spec_isqrt((n - 1) as nat);
        let r = spec_isqrt((n - 1) as nat);
        let s = spec_isqrt(n);
        if (r + 1) * (r + 1) <= n {
            assert(s == r + 1);
            assert(s * s <= n);
            assert(n - 1 < (r + 1) * (r + 1));
            assert(n < (s + 1) * (s + 1)) by (nonlinear_arith)
                requires
                    n <= s * s,
            ;
        } else {
            assert(s == r);
            assert(s * s <= n - 1);
            assert(n < (s + 1) * (s + 1));
        }
    } else {
        assert(spec_isqrt(n) == 0);
        assert(n < (spec_isqrt(n) + 1) * (spec_isqrt(n) + 1)) by (nonlinear_arith)
            requires
                n == 0,
                spec_isqrt(n) == 0,
        ;
    }
}

/// Only one value is the floor of the square root.
pub proof fn lemma_isqrt_unique(n: nat, r: nat)
    requires
        r * r <= n,
        n < (r + 1) * (r + 1),
    ensures
        r == spec_isqrt(n),
{
    lemma_spec_isqrt(n);
    let s = spec_isqrt(n);
    if r < s {
        assert((r + 1) * (r + 1) <= s * s) by (nonlinear_arith)
            requires
                r + 1 <= s,
        ;
    }
    if s < r {
        assert((s + 1) * (s + 1) <= r * r) by (nonlinear_arith)
            requires
                s + 1 <= r,
        ;
    }
}

/// Cluster capacity for a graph of `n` nodes: `max(32, isqrt(n))`.
pub open spec fn spec_capacity(n: int) -> int {
    if n >= 0 && spec_isqrt(n as nat) > 32 {
        spec_isqrt(n as nat) as int
    } else {
        32
    }
}

/// How many clusters a partition of `n` nodes at capacity `cap` has.
pub open spec fn spec_cluster_count(n: int, cap: int) -> int {
    n / cap + if n % cap == 0 {
        0int
    } else {
        1int
    }
}

/// The node sequence of the cluster starting at `start` with `len` nodes.
pub open spec fn cluster_nodes_shape(start: int, len: int) -> Seq<usize> {
    Seq::new(len as nat, |i: int| (start + i) as usize)
}

/// Edge `e` out of `u` crosses between two clusters of the capacity-`cap`
/// partition.
pub open spec fn crossing_edge(g: GraphShape, cap: int, e: int, u: int) -> bool {
    g.edge_of(e, u) && u / cap != g.edge_dst(e) / cap
}

/// `v` is an endpoint of some cross-cluster edge.
pub open spec fn is_boundary(g: GraphShape, cap: int, v: int) -> bool {
    exists|u: int, e: int| #[trigger] crossing_edge(g, cap, e, u) && (v == u || v == g.edge_dst(e))
}

/// The boundary members of `nodes`, in order.
pub open spec fn boundary_of(g: GraphShape, cap: int, nodes: Seq<usize>) -> Seq<usize>
    decreases nodes.len(),
{
    if nodes.len() == 0 {
        Seq::empty()
    } else {
        let rest = boundary_of(g, cap, nodes.drop_last());
        if is_boundary(g, cap, nodes.last() as int) {
            rest.push(nodes.last())
        } else {
            rest
        }
    }
}

/// `c` is exactly cluster `k` of the deterministic partition of `g`.
pub open spec fn cluster_matches(g: GraphShape, cap: int, k: int, c: Cluster) -> bool {
    let start = k * cap;
    let len = if g.node_count - start < cap {
        g.node_count - start
    } else {
        cap
    };
    &&& c.id == k
    &&& c.nodes@ == cluster_nodes_shape(start, len)
    &&& c.boundary_nodes@ == boundary_of(g, cap, c.nodes@)
}

/// `d` is exactly the decomposition that preprocessing `g` produces: nodes
/// assigned to clusters of capacity `max(32, isqrt(n))` in ascending index
/// order, and every cluster's boundary set listing its nodes that touch a
/// cross-cluster edge.
pub open spec fn decomposition_matches(g: GraphShape, d: HierarchicalDecomposition) -> bool {
    let n = g.node_count;
    let cap = spec_capacity(n);
    &&& d.cluster_assignment@.len() == n
    &&& forall|v: int|
        0 <= v < n ==> (#[trigger] d.cluster_assignment@[v]) as int == v / cap
    &&& d.clusters@.len() == spec_cluster_count(n, cap)
    &&& forall|k: int|
        0 <= k < d.clusters@.len() ==> cluster_matches(g, cap, k, #[trigger] d.clusters@[k])
}

/// Clustering is a function of the graph alone: two decompositions matching
/// the same graph are equal in every observable part. With `preprocess`
/// always producing a matching decomposition, two consecutive `preprocess`
/// calls on one graph therefore produce equivalent clusterings.
pub proof fn lemma_decomposition_deterministic(
    g: GraphShape,
    d1: HierarchicalDecomposition,
    d2: HierarchicalDecomposition,
)
    requires
        decomposition_matches(g, d1),
        decomposition_matches(g, d2),
    ensures
        d1.cluster_assignment@ == d2.cluster_assignment@,
        d1.clusters@.len() == d2.clusters@.len(),
        forall|k: int|
            0 <= k < d1.clusters@.len() ==> {
                &&& (#[trigger] d1.clusters@[k]).id == d2.clusters@[k].id
                &&& d1.clusters@[k].nodes@ == d2.clusters@[k].nodes@
                &&& d1.clusters@[k].boundary_nodes@ == d2.clusters@[k].boundary_nodes@
            },
{
    assert(d1.cluster_assignment@ =~= d2.cluster_assignment@);
}

/// Floor of the square root, by binary search on `0 .. 2^32`.
pub fn isqrt64(n: u64) -> (r: u64)
    ensures
        r as nat == spec_isqrt(n as nat),
        r * r <= n,
{
    let mut lo: u64 = 0;
    let mut hi: u64 = if n < 4294967295 {
        n
    } else {
        4294967295
    };
    proof {
        assert((hi + 1) * (hi + 1) > n) by (nonlinear_arith)
            requires
                hi == n || (hi == 4294967295 && n >= hi),
                n <= 0xffff_ffff_ffff_ffffu64,
        ;
    }
    while lo < hi
        invariant
            lo <= hi <= 4294967295,
            lo * lo <= n,
            (hi + 1) * (hi + 1) > n,
        decreases hi - lo,
    {
        let mid: u64 = lo + (hi - lo + 1) / 2;
        proof {
            assert(mid * mid <= 0xffff_fffe_0000_0001u64) by (nonlinear_arith)
                requires
                    mid <= 0xffff_ffffu64,
            ;
        }
        if mid * mid <= n {
            lo = mid;
        } else {
            hi = mid - 1;
        }
    }
    proof {
        lemma_isqrt_unique(n as nat, lo as nat);
    }
    lo
}

/// Cluster capacity for a graph of `n` nodes.
pub fn cluster_capacity(n: usize) -> (r: usize)
    ensures
        r as int == spec_capacity(n as int),
        r >= 32,
{
    let s = isqrt64(n as u64);
    proof {
        assert(s * s <= n as u64);
        assert(s <= 0xffff_ffffu64) by (nonlinear_arith)
            requires
                s * s <= 0xffff_ffff_ffff_ffffu64,
        ;
    }
    if s > 32 {
        s as usize
    } else {
        32
    }
}

} // verus!
