//! The solver: a two-state machine over an owned graph. `preprocess`
//! validates the graph and builds the hierarchical decomposition;
//! `solve` runs Dijkstra with a lazy-deletion priority queue. Both states use
//! the same relaxation routine; a `Preprocessed` solver only tags its results
//! differently — the decomposition is a prepared extension point that the
//! computation does not yet consult.

use crate::counting::{
    count_if, dist_finite_sel, lemma_count_if_agree, lemma_count_if_bounds, lemma_count_if_flip,
    lemma_count_if_none, lemma_sum_outdeg_if_agree, lemma_sum_outdeg_if_flip,
    lemma_sum_outdeg_if_le, lemma_sum_outdeg_if_none, seq_marked, sum_outdeg_if,
};
use crate::decomposition::{
    cluster_capacity, cluster_matches, cluster_nodes_shape, crossing_edge, boundary_of,
    decomposition_matches, is_boundary, spec_capacity, spec_cluster_count, Cluster,
    HierarchicalDecomposition,
};
use vstd::multiset::Multiset;
use crate::graph::{GraphShape, SparseGraph};
use crate::pqueue::{HeapNode, MinQueue};
use crate::result::{AlgorithmTag, Dist, InvalidSourceError, ResultShape, SSSpResult};
use vstd::prelude::*;

verus! {

broadcast use vstd::multiset::group_multiset_axioms;

/// One queue or distance magnitude step: weights lie strictly within
/// `[-0x8000_0000_0000_0000, 0x8000_0000_0000_0000]`, so a sum of `k` of them
/// lies within `k` such steps; this keeps all `i128` arithmetic exact.
pub open spec fn mag_ok(k: int, dist: Seq<Dist>, heap: Multiset<HeapNode>) -> bool {
    &&& forall|v: int|
        0 <= v < dist.len() && (#[trigger] dist[v]).is_finite() ==> -k * 0x8000_0000_0000_0000
            <= dist[v].val() <= k * 0x8000_0000_0000_0000
    &&& forall|e: HeapNode|
        (#[trigger] heap.count(e)) > 0 ==> -k * 0x8000_0000_0000_0000 <= e.dist as int <= k
            * 0x8000_0000_0000_0000
}

/// Every queue entry names a node whose recorded distance is finite and no
/// larger than the entry's key.
pub open spec fn heap_entry_ok(g: GraphShape, dist: Seq<Dist>, e: HeapNode) -> bool {
    &&& (e.node as int) < g.node_count
    &&& dist[e.node as int].is_finite()
    &&& dist[e.node as int].val() <= e.dist as int
}

/// The queue holds an entry for `v` whose key equals `v`'s recorded distance.
pub open spec fn in_heap_exact(heap: Multiset<HeapNode>, dist: Seq<Dist>, v: int) -> bool {
    exists|e: HeapNode|
        (#[trigger] heap.count(e)) > 0 && e.node as int == v && e.dist as int == dist[v].val()
}

/// The recorded predecessor of `v` is an in-range node with finite distance
/// and an edge to `v`, and `v` itself has finite distance.
pub open spec fn pred_edge_ok(
    g: GraphShape,
    dist: Seq<Dist>,
    pred: Seq<Option<usize>>,
    v: int,
) -> bool {
    pred[v] is Some && {
        let u = pred[v]->Some_0 as int;
        &&& 0 <= u < g.node_count
        &&& dist[u].is_finite()
        &&& dist[v].is_finite()
        &&& g.has_edge(u, v)
    }
}

/// `v`'s recorded distance is realized by the edge from its predecessor.
pub open spec fn pred_realized(
    g: GraphShape,
    dist: Seq<Dist>,
    pred: Seq<Option<usize>>,
    v: int,
) -> bool {
    let u = pred[v]->Some_0 as int;
    exists|e: int|
        #[trigger] g.edge_of(e, u) && g.edge_dst(e) == v && dist[v].val() == dist[u].val()
            + g.edge_weight(e)
}

/// Relaxation of edge `e` out of `u` can no longer improve its head.
pub open spec fn relaxed_at(g: GraphShape, dist: Seq<Dist>, u: int, e: int) -> bool {
    &&& dist[g.edge_dst(e)].is_finite()
    &&& dist[g.edge_dst(e)].val() <= dist[u].val() + g.edge_weight(e)
}

/// Every edge out of `u` is relaxed.
pub open spec fn node_relaxed(g: GraphShape, dist: Seq<Dist>, u: int) -> bool {
    forall|e: int| #[trigger] g.edge_of(e, u) ==> relaxed_at(g, dist, u, e)
}

/// The edges out of `u` with index below `upto` are relaxed.
pub open spec fn node_relaxed_upto(g: GraphShape, dist: Seq<Dist>, u: int, upto: int) -> bool {
    forall|e: int| #[trigger] g.edge_of(e, u) && e < upto ==> relaxed_at(g, dist, u, e)
}

/// The predecessor of `v` settled before `v` did.
pub open spec fn pred_rank_ok(
    pred: Seq<Option<usize>>,
    vis: Seq<bool>,
    rank: Map<int, int>,
    v: int,
) -> bool {
    let u = pred[v]->Some_0 as int;
    &&& rank.contains_key(u)
    &&& (vis[v] ==> rank[u] < rank[v])
}

/// Following `pred` from `v` reaches `source` within `fuel` steps.
pub open spec fn chain_ok(pred: Seq<Option<usize>>, source: int, v: int, fuel: nat) -> bool
    decreases fuel,
{
    ||| v == source
    ||| {
        &&& fuel > 0
        &&& 0 <= v < pred.len()
        &&& pred[v] is Some
        &&& chain_ok(pred, source, pred[v]->Some_0 as int, (fuel - 1) as nat)
    }
}

/// A chain that reaches the source with some fuel reaches it with more.
pub proof fn lemma_chain_ok_mono(pred: Seq<Option<usize>>, source: int, v: int, f1: nat, f2: nat)
    requires
        chain_ok(pred, source, v, f1),
        f1 <= f2,
    ensures
        chain_ok(pred, source, v, f2),
    decreases f1,
{
    if v != source {
        lemma_chain_ok_mono(pred, source, pred[v]->Some_0 as int, (f1 - 1) as nat, (f2 - 1) as nat);
    }
}

/// Settled nodes reach the source along predecessors within their settle
/// index: each predecessor settled strictly earlier.
pub proof fn lemma_chain_from_rank(
    pred: Seq<Option<usize>>,
    vis: Seq<bool>,
    rank: Map<int, int>,
    source: int,
    n: int,
    v: int,
)
    requires
        pred.len() == n,
        vis.len() == n,
        0 <= source < n,
        0 <= v < n,
        vis[v],
        forall|w: int| 0 <= w < n ==> ((#[trigger] vis[w]) <==> rank.contains_key(w)),
        forall|w: int| 0 <= w < n && #[trigger] vis[w] ==> rank[w] >= 0,
        forall|w: int| 0 <= w < n && #[trigger] vis[w] && w != source ==> pred[w] is Some,
        forall|w: int|
            0 <= w < n && (#[trigger] pred[w]) is Some ==> ({
                let uu = pred[w]->Some_0 as int;
                0 <= uu < n && pred_rank_ok(pred, vis, rank, w)
            }),
    ensures
        chain_ok(pred, source, v, rank[v] as nat),
    decreases rank[v],
{
    if v != source {
        let u = pred[v]->Some_0 as int;
        assert(pred_rank_ok(pred, vis, rank, v));
        assert(vis[u]);
        assert(rank[u] < rank[v]);
        lemma_chain_from_rank(pred, vis, rank, source, n, u);
        lemma_chain_ok_mono(pred, source, u, rank[u] as nat, (rank[v] - 1) as nat);
    }
}

/// Unconditional part of the solve contract: shapes, soundness of finite
/// distances (they imply reachability), predecessor structure, and the exact
/// meaning of the two counters.
pub open spec fn post_core(
    g: GraphShape,
    source: int,
    dist: Seq<Dist>,
    pred: Seq<Option<usize>>,
    nv: int,
    er: int,
) -> bool {
    let n = g.node_count;
    &&& dist.len() == n
    &&& pred.len() == n
    &&& 0 <= source < n
    &&& dist[source].is_finite()
    &&& forall|v: int|
        0 <= v < n && (#[trigger] dist[v]).is_finite() ==> g.reachable(source, v)
    &&& forall|v: int|
        0 <= v < n && (#[trigger] pred[v]) is Some ==> pred_edge_ok(g, dist, pred, v)
    &&& forall|v: int|
        0 <= v < n && v != source && (#[trigger] dist[v]).is_finite() ==> pred[v] is Some
    &&& forall|v: int| 0 <= v < n && !(#[trigger] dist[v]).is_finite() ==> pred[v] is None
    &&& nv == count_if(dist_finite_sel(dist), n)
    &&& er == sum_outdeg_if(g, dist_finite_sel(dist), n)
    &&& nv <= n
}

/// Shortest-path part of the solve contract; holds whenever all weights are
/// non-negative: the source sits at distance zero with no predecessor, every
/// edge is relaxed (edge-wise optimality), every recorded distance is
/// realized by the edge from its predecessor, and every node with finite
/// distance reaches the source along predecessors in at most
/// `node_count - 1` steps.
pub open spec fn post_shortest(
    g: GraphShape,
    source: int,
    dist: Seq<Dist>,
    pred: Seq<Option<usize>>,
) -> bool {
    let n = g.node_count;
    &&& dist[source] == Dist::Finite(0)
    &&& pred[source] is None
    &&& forall|v: int| 0 <= v < n && (#[trigger] dist[v]).is_finite() ==> dist[v].val() >= 0
    &&& forall|u: int, e: int|
        #[trigger] g.edge_of(e, u) && dist[u].is_finite() ==> relaxed_at(g, dist, u, e)
    &&& forall|v: int|
        0 <= v < n && (#[trigger] pred[v]) is Some ==> v != source && pred_realized(
            g,
            dist,
            pred,
            v,
        )
    &&& forall|v: int|
        0 <= v < n && (#[trigger] dist[v]).is_finite() ==> chain_ok(
            pred,
            source,
            v,
            (n - 1) as nat,
        )
}

/// The whole contract of one solve on `g` from `source`.
pub open spec fn result_post(g: GraphShape, source: int, rs: ResultShape) -> bool {
    &&& post_core(
        g,
        source,
        rs.distances,
        rs.predecessors,
        rs.nodes_visited as int,
        rs.edges_relaxed as int,
    )
    &&& g.nonneg_weights() ==> post_shortest(g, source, rs.distances, rs.predecessors)
}

/// Invariant of the Dijkstra loops that holds with or without negative
/// weights.
pub open spec fn dij_inv(
    g: GraphShape,
    source: int,
    dist: Seq<Dist>,
    pred: Seq<Option<usize>>,
    vis: Seq<bool>,
    heap: Multiset<HeapNode>,
    nv: int,
    rank: Map<int, int>,
) -> bool {
    let n = g.node_count;
    &&& g.csr_in_bounds()
    &&& 0 <= source < n
    &&& n <= usize::MAX as int
    &&& dist.len() == n
    &&& pred.len() == n
    &&& vis.len() == n
    &&& dist[source].is_finite()
    &&& forall|e: HeapNode| (#[trigger] heap.count(e)) > 0 ==> heap_entry_ok(g, dist, e)
    &&& forall|v: int|
        0 <= v < n && !vis[v] && (#[trigger] dist[v]).is_finite() ==> in_heap_exact(heap, dist, v)
    &&& forall|v: int| 0 <= v < n && (#[trigger] vis[v]) ==> dist[v].is_finite()
    &&& forall|v: int| 0 <= v < n ==> ((#[trigger] vis[v]) <==> rank.contains_key(v))
    &&& forall|v: int| 0 <= v < n && (#[trigger] vis[v]) ==> 0 <= rank[v] < nv
    &&& 0 <= nv <= n
    &&& mag_ok(nv, dist, heap)
    &&& forall|v: int|
        0 <= v < n && (#[trigger] dist[v]).is_finite() ==> g.reachable(source, v)
    &&& forall|v: int|
        0 <= v < n && (#[trigger] pred[v]) is Some ==> pred_edge_ok(g, dist, pred, v)
    &&& forall|v: int|
        0 <= v < n && v != source && (#[trigger] dist[v]).is_finite() ==> pred[v] is Some
    &&& forall|v: int| 0 <= v < n && !(#[trigger] dist[v]).is_finite() ==> pred[v] is None
}

/// Further invariant of the Dijkstra loops under non-negative weights.
/// `relax_u`/`relax_upto` name the node whose edge scan is underway and how
/// far it has come; every other settled node is fully relaxed. The outer loop
/// passes `relax_u == -1`.
pub open spec fn dij_inv_opt(
    g: GraphShape,
    source: int,
    dist: Seq<Dist>,
    pred: Seq<Option<usize>>,
    vis: Seq<bool>,
    heap: Multiset<HeapNode>,
    rank: Map<int, int>,
    relax_u: int,
    relax_upto: int,
) -> bool {
    let n = g.node_count;
    &&& dist[source] == Dist::Finite(0)
    &&& pred[source] is None
    &&& forall|v: int| 0 <= v < n && (#[trigger] dist[v]).is_finite() ==> dist[v].val() >= 0
    &&& forall|v: int, e: HeapNode|
        0 <= v < n && #[trigger] vis[v] && (#[trigger] heap.count(e)) > 0 ==> dist[v].val()
            <= e.dist as int
    &&& forall|v: int|
        0 <= v < n && #[trigger] vis[v] && v != relax_u ==> node_relaxed(g, dist, v)
    &&& (0 <= relax_u < n && vis[relax_u] ==> node_relaxed_upto(g, dist, relax_u, relax_upto))
    &&& forall|v: int|
        0 <= v < n && (#[trigger] pred[v]) is Some ==> v != source && pred_realized(
            g,
            dist,
            pred,
            v,
        )
    &&& forall|v: int|
        0 <= v < n && (#[trigger] pred[v]) is Some ==> pred_rank_ok(pred, vis, rank, v)
}

/// One improving relaxation step preserves the loop invariants: writing
/// distance `cand` and predecessor `u` at `v`, and enqueueing `(cand, v)`
/// when `v` is unsettled, keeps `dij_inv`, and moves the edge scan of `u`
/// one edge forward under non-negative weights.
#[verifier::rlimit(100)]
pub proof fn lemma_relax_update(
    g: GraphShape,
    source: int,
    u: int,
    v: int,
    ei: int,
    du: i128,
    cand: i128,
    old_dist: Seq<Dist>,
    old_pred: Seq<Option<usize>>,
    vis: Seq<bool>,
    old_heap: Multiset<HeapNode>,
    dist: Seq<Dist>,
    pred: Seq<Option<usize>>,
    heap: Multiset<HeapNode>,
    nv: int,
    rank: Map<int, int>,
)
    requires
        dij_inv(g, source, old_dist, old_pred, vis, old_heap, nv, rank),
        g.edge_of(ei, u),
        g.edge_dst(ei) == v,
        vis[u],
        old_dist[u].is_finite(),
        old_dist[u].val() <= du as int,
        1 <= nv,
        -(nv - 1) * 0x8000_0000_0000_0000 <= du as int <= (nv - 1) * 0x8000_0000_0000_0000,
        cand as int == du as int + g.edge_weight(ei),
        !old_dist[v].is_finite() || (cand as int) < old_dist[v].val(),
        dist == old_dist.update(v, Dist::Finite(cand)),
        pred == old_pred.update(v, Some(u as usize)),
        heap == if vis[v] {
            old_heap
        } else {
            old_heap.insert(HeapNode { node: v as usize, dist: cand })
        },
    ensures
        dij_inv(g, source, dist, pred, vis, heap, nv, rank),
        dist[u].is_finite(),
        dist[u].val() <= du as int,
{
    let n = g.node_count;
    let w = g.edge_weight(ei);
    let en = HeapNode { node: v as usize, dist: cand };
    g.lemma_offsets_chain(u + 1, n);
    assert(0 <= ei < g.destinations.len());
    assert(0 <= v < n);
    g.lemma_reachable_step(source, u, v);
    assert forall|e2: HeapNode| (#[trigger] heap.count(e2)) > 0 implies heap_entry_ok(
        g,
        dist,
        e2,
    ) by {
        if old_heap.count(e2) > 0 {
            assert(heap_entry_ok(g, old_dist, e2));
        } else {
            assert(e2 == en);
        }
    }
    assert forall|x: int|
        0 <= x < n && !vis[x] && (#[trigger] dist[x]).is_finite() implies in_heap_exact(
        heap,
        dist,
        x,
    ) by {
        if x == v {
            assert(heap.count(en) > 0);
        } else {
            assert(in_heap_exact(old_heap, old_dist, x));
            let ex = choose|e: HeapNode|
                (#[trigger] old_heap.count(e)) > 0 && e.node as int == x && e.dist as int
                    == old_dist[x].val();
            assert(heap.count(ex) > 0);
        }
    }
    assert forall|x: int|
        0 <= x < n && (#[trigger] dist[x]).is_finite() implies -nv * 0x8000_0000_0000_0000
        <= dist[x].val() <= nv * 0x8000_0000_0000_0000 by {
        if x != v {
            assert(old_dist[x] == dist[x]);
        }
    }
    assert(mag_ok(nv, dist, heap));
}

/// Part of the relaxation step under non-negative weights: every recorded
/// predecessor still realizes its node's distance after the update.
#[verifier::rlimit(100)]
pub proof fn lemma_relax_preds_opt(
    g: GraphShape,
    source: int,
    u: int,
    v: int,
    ei: int,
    du: i128,
    cand: i128,
    old_dist: Seq<Dist>,
    old_pred: Seq<Option<usize>>,
    vis: Seq<bool>,
    old_heap: Multiset<HeapNode>,
    dist: Seq<Dist>,
    pred: Seq<Option<usize>>,
    heap: Multiset<HeapNode>,
    nv: int,
    rank: Map<int, int>,
)
    requires
        g.nonneg_weights(),
        dij_inv(g, source, old_dist, old_pred, vis, old_heap, nv, rank),
        g.edge_of(ei, u),
        g.edge_dst(ei) == v,
        vis[u],
        !vis[v],
        v != source,
        cand as int == du as int + g.edge_weight(ei),
        !old_dist[v].is_finite() || (cand as int) < old_dist[v].val(),
        dist == old_dist.update(v, Dist::Finite(cand)),
        pred == old_pred.update(v, Some(u as usize)),
        heap == if vis[v] {
            old_heap
        } else {
            old_heap.insert(HeapNode { node: v as usize, dist: cand })
        },
        dij_inv_opt(g, source, old_dist, old_pred, vis, old_heap, rank, u, ei),
        old_dist[u] == Dist::Finite(du),
    ensures
        forall|x: int|
            0 <= x < g.node_count && (#[trigger] pred[x]) is Some ==> x != source
                && pred_realized(g, dist, pred, x),
{
    let n = g.node_count;
    g.lemma_offsets_chain(u + 1, n);
    assert(0 <= ei < g.destinations.len());
    assert(0 <= v < n);
    assert forall|x: int|
        0 <= x < n && (#[trigger] pred[x]) is Some implies x != source && pred_realized(
        g,
        dist,
        pred,
        x,
    ) by {
        if x == v {
            assert(pred[x]->Some_0 as int == u);
            assert(g.edge_of(ei, u) && g.edge_dst(ei) == v && dist[x].val() == dist[u].val()
                + g.edge_weight(ei));
            assert(pred_realized(g, dist, pred, x));
        } else {
            assert(pred_realized(g, old_dist, old_pred, x));
            let p = old_pred[x]->Some_0 as int;
            assert(pred_rank_ok(old_pred, vis, rank, x));
            assert(vis[p]);
            let e0 = choose|e: int|
                #[trigger] g.edge_of(e, p) && g.edge_dst(e) == x && old_dist[x].val()
                    == old_dist[p].val() + g.edge_weight(e);
            assert(pred[x]->Some_0 as int == p);
            assert(g.edge_of(e0, p) && g.edge_dst(e0) == x && dist[x].val() == dist[p].val()
                + g.edge_weight(e0));
            assert(pred_realized(g, dist, pred, x));
        }
    }
}

/// Part of the relaxation step under non-negative weights: settled nodes
/// stay fully relaxed, and the edge scan of `u` moves one edge forward.
#[verifier::rlimit(100)]
pub proof fn lemma_relax_scan_opt(
    g: GraphShape,
    u: int,
    v: int,
    ei: int,
    du: i128,
    cand: i128,
    old_dist: Seq<Dist>,
    vis: Seq<bool>,
    dist: Seq<Dist>,
)
    requires
        g.csr_in_bounds(),
        old_dist.len() == g.node_count,
        vis.len() == g.node_count,
        0 <= u < g.node_count,
        0 <= v < g.node_count,
        vis[u],
        !vis[v],
        g.edge_of(ei, u),
        g.edge_dst(ei) == v,
        cand as int == du as int + g.edge_weight(ei),
        !old_dist[v].is_finite() || (cand as int) < old_dist[v].val(),
        dist == old_dist.update(v, Dist::Finite(cand)),
        old_dist[u] == Dist::Finite(du),
        forall|x: int|
            0 <= x < g.node_count && #[trigger] vis[x] && x != u ==> node_relaxed(g, old_dist, x),
        node_relaxed_upto(g, old_dist, u, ei),
    ensures
        forall|x: int|
            0 <= x < g.node_count && #[trigger] vis[x] && x != u ==> node_relaxed(g, dist, x),
        node_relaxed_upto(g, dist, u, ei + 1),
{
    let n = g.node_count;
    // earlier settled nodes stay fully relaxed
    assert forall|x: int|
        0 <= x < n && #[trigger] vis[x] && x != u implies node_relaxed(g, dist, x) by {
        assert(node_relaxed(g, old_dist, x));
        assert(x != v);
        assert forall|e2: int| #[trigger] g.edge_of(e2, x) implies relaxed_at(
            g,
            dist,
            x,
            e2,
        ) by {
            g.lemma_offsets_chain(x + 1, n);
            assert(0 <= e2 < g.destinations.len());
            assert(0 <= g.edge_dst(e2) < n);
            assert(relaxed_at(g, old_dist, x, e2));
        }
    }
    // the scan of u now covers this edge as well
    assert forall|e2: int|
        #[trigger] g.edge_of(e2, u) && e2 < ei + 1 implies relaxed_at(g, dist, u, e2) by {
        g.lemma_offsets_chain(u + 1, n);
        assert(0 <= e2 < g.destinations.len());
        assert(0 <= g.edge_dst(e2) < n);
        assert(dist[u] == Dist::Finite(du));
        if e2 == ei {
            assert(dist[v].val() == cand as int);
        } else {
            assert(relaxed_at(g, old_dist, u, e2));
        }
    }
    assert(node_relaxed_upto(g, dist, u, ei + 1));
}

/// Under non-negative weights, the same relaxation step also preserves the
/// shortest-path invariants: the updated node was unsettled and is not the
/// source, settled distances stay below every queue key, earlier settled
/// nodes stay fully relaxed, and the edge scan of `u` moves one edge on.
#[verifier::rlimit(100)]
pub proof fn lemma_relax_update_opt(
    g: GraphShape,
    source: int,
    u: int,
    v: int,
    ei: int,
    du: i128,
    cand: i128,
    old_dist: Seq<Dist>,
    old_pred: Seq<Option<usize>>,
    vis: Seq<bool>,
    old_heap: Multiset<HeapNode>,
    dist: Seq<Dist>,
    pred: Seq<Option<usize>>,
    heap: Multiset<HeapNode>,
    nv: int,
    rank: Map<int, int>,
)
    requires
        g.nonneg_weights(),
        dij_inv(g, source, old_dist, old_pred, vis, old_heap, nv, rank),
        g.edge_of(ei, u),
        g.edge_dst(ei) == v,
        vis[u],
        cand as int == du as int + g.edge_weight(ei),
        !old_dist[v].is_finite() || (cand as int) < old_dist[v].val(),
        dist == old_dist.update(v, Dist::Finite(cand)),
        pred == old_pred.update(v, Some(u as usize)),
        heap == if vis[v] {
            old_heap
        } else {
            old_heap.insert(HeapNode { node: v as usize, dist: cand })
        },
        dij_inv_opt(g, source, old_dist, old_pred, vis, old_heap, rank, u, ei),
        old_dist[u] == Dist::Finite(du),
        forall|x: int|
            0 <= x < g.node_count && (#[trigger] vis[x]) ==> old_dist[x].val() <= du as int,
    ensures
        dij_inv_opt(g, source, dist, pred, vis, heap, rank, u, ei + 1),
        !vis[v] && v != source,
        dist[u] == Dist::Finite(du),
        forall|x: int|
            0 <= x < g.node_count && (#[trigger] vis[x]) ==> dist[x].val() <= du as int,
{
    let n = g.node_count;
    let w = g.edge_weight(ei);
    let en = HeapNode { node: v as usize, dist: cand };
    g.lemma_offsets_chain(u + 1, n);
    assert(0 <= ei < g.destinations.len());
    assert(0 <= v < n);
    // a settled node can no longer improve, so v is unsettled; the source,
    // at distance zero, cannot improve either
    assert(g.weights[ei] >= 0);
    if vis[v] {
        assert(old_dist[v].val() <= du as int);
        assert(false);
    }
    if v == source {
        assert(false);
    }
    lemma_relax_preds_opt(
        g, source, u, v, ei, du, cand, old_dist, old_pred, vis, old_heap, dist, pred, heap, nv,
        rank,
    );
    // settled distances stay below every queue key
    assert forall|x: int, e2: HeapNode|
        0 <= x < n && #[trigger] vis[x] && (#[trigger] heap.count(e2)) > 0 implies dist[x].val()
        <= e2.dist as int by {
        assert(x != v);
        assert(dist[x] == old_dist[x]);
        assert(old_dist[x].val() <= du as int);
        if old_heap.count(e2) > 0 {
            assert(old_dist[x].val() <= e2.dist as int);
        } else {
            assert(e2 == en);
        }
    }
    lemma_relax_scan_opt(g, u, v, ei, du, cand, old_dist, vis, dist);
    // predecessors still settled before their nodes
    assert forall|x: int|
        0 <= x < n && (#[trigger] pred[x]) is Some implies pred_rank_ok(
        pred,
        vis,
        rank,
        x,
    ) by {
        if x == v {
            assert(rank.contains_key(u));
        } else {
            assert(pred_rank_ok(old_pred, vis, rank, x));
        }
    }
}


/// Which of the two states the solver is in.
#[derive(Debug)]
pub enum PreprocessState {
    Unprocessed,
    Preprocessed(HierarchicalDecomposition),
}

/// Shortest-path solver over an owned graph. Reusable for any number of
/// solves in either state; `preprocess` moves it from `Unprocessed` to
/// `Preprocessed` when the graph validates.
#[derive(Debug)]
pub struct EnhancedSSSpSolver {
    pub graph: SparseGraph,
    pub state: PreprocessState,
}

impl EnhancedSSSpSolver {
    /// Wrap a graph; the solver starts unprocessed.
    pub fn new(graph: SparseGraph) -> (s: EnhancedSSSpSolver)
        ensures
            s.graph == graph,
            !(s.state is Preprocessed),
    {
        EnhancedSSSpSolver { graph, state: PreprocessState::Unprocessed }
    }

    /// Validate the graph and, when it passes, build the decomposition and
    /// move to `Preprocessed`. On failure the solver is left unchanged and
    /// remains fully usable for plain solves.
    pub fn preprocess(&mut self) -> (r: bool)
        requires
            old(self).graph@.csr_in_bounds(),
        ensures
            final(self).graph == old(self).graph,
            r == old(self).graph@.valid(),
            r ==> (final(self).state matches PreprocessState::Preprocessed(d)
                && decomposition_matches(old(self).graph@, d)),
            !r ==> *final(self) == *old(self),
    {
        if !self.graph.validate() {
            return false;
        }
        let d = self.build_hierarchical_decomposition();
        self.state = PreprocessState::Preprocessed(d);
        true
    }

    /// Solve single-source shortest paths from `source`. Fails exactly when
    /// `source` is out of range, carrying the offending index; otherwise the
    /// result satisfies the full solve contract and is tagged by the
    /// solver's state.
    pub fn solve(&self, source: usize) -> (r: Result<SSSpResult, InvalidSourceError>)
        requires
            self.graph@.csr_in_bounds(),
        ensures
            (r is Err) == (source as int >= self.graph@.node_count),
            r matches Err(err) ==> err.source == source,
            r matches Ok(res) ==> result_post(self.graph@, source as int, res@)
                && res@.algorithm_used == (if self.state is Preprocessed {
                AlgorithmTag::EnhancedSssp
            } else {
                AlgorithmTag::DijkstraOptimized
            }),
    {
        if source >= self.graph.node_count {
            return Err(InvalidSourceError { source });
        }
        let res = match &self.state {
            PreprocessState::Preprocessed(_) => self.solve_enhanced(source),
            PreprocessState::Unprocessed => self.solve_dijkstra_optimized(source),
        };
        Ok(res)
    }

    /// The decomposition-aware entry point. The decomposition is not yet
    /// consulted: this runs the same relaxation routine and only tags the
    /// result, an acknowledged limitation kept as an extension point.
    fn solve_enhanced(&self, source: usize) -> (r: SSSpResult)
        requires
            self.graph@.csr_in_bounds(),
            (source as int) < self.graph@.node_count,
            self.state is Preprocessed,
        ensures
            result_post(self.graph@, source as int, r@),
            r@.algorithm_used == AlgorithmTag::EnhancedSssp,
    {
        let base = self.solve_dijkstra_optimized(source);
        base.with_algorithm(AlgorithmTag::EnhancedSssp)
    }

    /// Dijkstra with a min-priority queue and lazy deletion: pop
    /// the minimum, discard stale entries, settle the node, relax its out
    /// edges. Runs to completion on any structurally sound graph; the
    /// shortest-path clauses of the contract hold whenever the weights are
    /// non-negative.
    #[verifier::rlimit(100)]
    fn solve_dijkstra_optimized(&self, source: usize) -> (r: SSSpResult)
        requires
            self.graph@.csr_in_bounds(),
            (source as int) < self.graph@.node_count,
        ensures
            result_post(self.graph@, source as int, r@),
            r@.algorithm_used == AlgorithmTag::DijkstraOptimized,
    {
        let ghost g = self.graph@;
        let n = self.graph.node_count;
        let mut distances: Vec<Dist> = vec![Dist::Unreachable; n];
        let mut predecessors: Vec<Option<usize>> = vec![None; n];
        let mut visited: Vec<bool> = vec![false; n];
        distances.set(source, Dist::Finite(0));
        let mut heap = MinQueue::new();
        heap.push(HeapNode { node: source, dist: 0 });
        let mut nodes_visited: u64 = 0;
        let mut edges_relaxed: u64 = 0;
        let ghost mut rank: Map<int, int> = Map::empty();
        proof {
            lemma_count_if_none(seq_marked(visited@), n as int);
            lemma_sum_outdeg_if_none(g, seq_marked(visited@), n as int);
            lemma_sum_outdeg_if_le(g, seq_marked(visited@), n as int);
            g.lemma_reachable_refl(source as int);
            assert forall|e: HeapNode|
                (#[trigger] heap@.count(e)) > 0 implies heap_entry_ok(g, distances@, e) by {
                assert(e == HeapNode { node: source, dist: 0 });
            }
            assert(in_heap_exact(heap@, distances@, source as int)) by {
                let e0 = HeapNode { node: source, dist: 0 };
                assert(heap@.count(e0) > 0);
            }
        }
        while !heap.is_empty()
            invariant
                g == self.graph@,
                n == g.node_count,
                dij_inv(
                    g,
                    source as int,
                    distances@,
                    predecessors@,
                    visited@,
                    heap@,
                    nodes_visited as int,
                    rank,
                ),
                nodes_visited as int == count_if(seq_marked(visited@), n as int),
                edges_relaxed as int == sum_outdeg_if(g, seq_marked(visited@), n as int),
                sum_outdeg_if(g, seq_marked(visited@), n as int) <= g.offsets[n as int]
                    - g.offsets[0],
                (g.nonneg_weights() ==> dij_inv_opt(
                    g,
                    source as int,
                    distances@,
                    predecessors@,
                    visited@,
                    heap@,
                    rank,
                    -1,
                    0,
                )),
            decreases heap@.len() + (g.offsets[g.node_count] - g.offsets[0]) - sum_outdeg_if(
                g,
                seq_marked(visited@),
                g.node_count,
            ),
        {
            let ghost heap0 = heap@;
            let top = heap.pop_min();
            let u = top.node;
            if !visited[u] {
                proof {
                    // the popped key equals the node's recorded distance: the
                    // queue held an exact entry for u, and the popped key is
                    // minimal, so neither can be smaller than the other
                    assert(heap_entry_ok(g, distances@, top));
                    assert(in_heap_exact(heap0, distances@, u as int));
                    let ew = choose|e: HeapNode|
                        (#[trigger] heap0.count(e)) > 0 && e.node as int == u as int
                            && e.dist as int == distances@[u as int].val();
                    assert(top.dist <= ew.dist);
                    assert(distances@[u as int].val() == top.dist as int);
                }
                let ghost old_vis = visited@;
                visited.set(u, true);
                proof {
                    lemma_count_if_flip(
                        seq_marked(old_vis),
                        seq_marked(visited@),
                        u as int,
                        n as int,
                    );
                    lemma_count_if_bounds(seq_marked(visited@), n as int);
                }
                nodes_visited += 1;
                proof {
                    rank = rank.insert(u as int, nodes_visited as int - 1);
                    lemma_sum_outdeg_if_flip(
                        g,
                        seq_marked(old_vis),
                        seq_marked(visited@),
                        u as int,
                        n as int,
                    );
                    lemma_sum_outdeg_if_le(g, seq_marked(visited@), n as int);
                    g.lemma_offsets_chain(u as int + 1, n as int);
                    // every other unsettled node keeps its exact queue entry
                    assert forall|x: int|
                        0 <= x < n && !visited@[x] && (
                        #[trigger] distances@[x]).is_finite() implies in_heap_exact(
                        heap@,
                        distances@,
                        x,
                    ) by {
                        assert(in_heap_exact(heap0, distances@, x));
                        let ex = choose|e: HeapNode|
                            (#[trigger] heap0.count(e)) > 0 && e.node as int == x
                                && e.dist as int == distances@[x].val();
                        assert(ex.node as int != u as int);
                        assert(heap@.count(ex) > 0);
                    }
                }
                let edge_start = self.graph.outgoing_edges[u] as usize;
                let edge_end = self.graph.outgoing_edges[u + 1] as usize;
                let du: i128 = top.dist;
                let ghost heap_len0 = heap@.len();
                let mut ei = edge_start;
                while ei < edge_end
                    invariant
                        g == self.graph@,
                        n == g.node_count,
                        (u as int) < n,
                        edge_start == g.offsets[u as int] as int,
                        edge_end == g.offsets[u as int + 1] as int,
                        edge_start <= ei <= edge_end,
                        edge_end <= g.destinations.len(),
                        edge_end <= g.weights.len(),
                        visited@[u as int],
                        nodes_visited >= 1,
                        -((nodes_visited as int) - 1) * 0x8000_0000_0000_0000 <= du as int
                            <= ((nodes_visited as int) - 1) * 0x8000_0000_0000_0000,
                        heap@.len() <= heap_len0 + (ei - edge_start),
                        dij_inv(
                            g,
                            source as int,
                            distances@,
                            predecessors@,
                            visited@,
                            heap@,
                            nodes_visited as int,
                            rank,
                        ),
                        distances@[u as int].is_finite(),
                        distances@[u as int].val() <= du as int,
                        nodes_visited as int == count_if(seq_marked(visited@), n as int),
                        edges_relaxed as int + (edge_end - ei) == sum_outdeg_if(
                            g,
                            seq_marked(visited@),
                            n as int,
                        ),
                        sum_outdeg_if(g, seq_marked(visited@), n as int) <= g.offsets[n as int]
                            - g.offsets[0],
                        (g.nonneg_weights() ==> distances@[u as int] == Dist::Finite(du)),
                        (g.nonneg_weights() ==> forall|v: int|
                            0 <= v < n && (#[trigger] visited@[v]) ==> distances@[v].val()
                                <= du as int),
                        (g.nonneg_weights() ==> dij_inv_opt(
                            g,
                            source as int,
                            distances@,
                            predecessors@,
                            visited@,
                            heap@,
                            rank,
                            u as int,
                            ei as int,
                        )),
                    decreases edge_end - ei,
                {
                    let v = self.graph.destinations[ei] as usize;
                    let w = self.graph.weights[ei];
                    proof {
                        assert(g.edge_of(ei as int, u as int));
                        assert((nodes_visited as int) * 0x8000_0000_0000_0000 <= (
                        0xffff_ffff_ffff_ffffu64 as int) * 0x8000_0000_0000_0000)
                            by (nonlinear_arith)
                            requires
                                nodes_visited as int <= 0xffff_ffff_ffff_ffffu64 as int,
                        ;
                    }
                    let cand: i128 = du + (w as i128);
                    edges_relaxed += 1;
                    let improved = match distances[v] {
                        Dist::Unreachable => true,
                        Dist::Finite(dv) => cand < dv,
                    };
                    if improved {
                        let ghost old_dist = distances@;
                        let ghost old_pred = predecessors@;
                        let ghost old_heap = heap@;
                        distances.set(v, Dist::Finite(cand));
                        predecessors.set(v, Some(u));
                        if !visited[v] {
                            heap.push(HeapNode { node: v, dist: cand });
                        }
                        proof {
                            lemma_relax_update(
                                g,
                                source as int,
                                u as int,
                                v as int,
                                ei as int,
                                du,
                                cand,
                                old_dist,
                                old_pred,
                                visited@,
                                old_heap,
                                distances@,
                                predecessors@,
                                heap@,
                                nodes_visited as int,
                                rank,
                            );
                            if g.nonneg_weights() {
                                lemma_relax_update_opt(
                                    g,
                                    source as int,
                                    u as int,
                                    v as int,
                                    ei as int,
                                    du,
                                    cand,
                                    old_dist,
                                    old_pred,
                                    visited@,
                                    old_heap,
                                    distances@,
                                    predecessors@,
                                    heap@,
                                    nodes_visited as int,
                                    rank,
                                );
                            }
                        }
                    } else {
                        proof {
                            if g.nonneg_weights() {
                                // no improvement: this edge is already relaxed
                                assert forall|e2: int|
                                    #[trigger] g.edge_of(e2, u as int) && e2 < ei as int
                                        + 1 implies relaxed_at(g, distances@, u as int, e2) by {
                                    if e2 == ei as int {
                                        assert(distances@[v as int].is_finite());
                                        assert(distances@[v as int].val() <= cand as int);
                                    }
                                }
                                assert(node_relaxed_upto(g, distances@, u as int, ei as int + 1));
                            }
                        }
                    }
                    ei += 1;
                }
                proof {
                    if g.nonneg_weights() {
                        assert forall|x: int|
                            0 <= x < n && #[trigger] visited@[x] implies node_relaxed(
                            g,
                            distances@,
                            x,
                        ) by {
                            if x == u as int {
                                assert(node_relaxed_upto(g, distances@, x, edge_end as int));
                                assert forall|e: int| #[trigger] g.edge_of(e, x) implies relaxed_at(
                                    g,
                                    distances@,
                                    x,
                                    e,
                                ) by {
                                    assert(e < edge_end);
                                }
                            }
                        }
                    }
                }
            } else {
                proof {
                    // stale entry for an already settled node: discarding it
                    // leaves every unsettled node's exact entry in the queue
                    assert forall|x: int|
                        0 <= x < n && !visited@[x] && (
                        #[trigger] distances@[x]).is_finite() implies in_heap_exact(
                        heap@,
                        distances@,
                        x,
                    ) by {
                        assert(in_heap_exact(heap0, distances@, x));
                        let ex = choose|e: HeapNode|
                            (#[trigger] heap0.count(e)) > 0 && e.node as int == x
                                && e.dist as int == distances@[x].val();
                        assert(ex.node as int != u as int);
                        assert(heap@.count(ex) > 0);
                    }
                }
            }
        }
        proof {
            assert forall|v: int|
                0 <= v < n implies #[trigger] seq_marked(visited@)(v) == dist_finite_sel(
                distances@,
            )(v) by {
                if !visited@[v] && distances@[v].is_finite() {
                    assert(in_heap_exact(heap@, distances@, v));
                    let e = choose|e: HeapNode|
                        (#[trigger] heap@.count(e)) > 0 && e.node as int == v && e.dist as int
                            == distances@[v].val();
                    assert(heap@.count(e) == 0);
                }
            }
            lemma_count_if_agree(seq_marked(visited@), dist_finite_sel(distances@), n as int);
            lemma_sum_outdeg_if_agree(
                g,
                seq_marked(visited@),
                dist_finite_sel(distances@),
                n as int,
            );
            lemma_count_if_bounds(dist_finite_sel(distances@), n as int);
            if g.nonneg_weights() {
                assert forall|v: int|
                    0 <= v < n && (#[trigger] distances@[v]).is_finite() implies chain_ok(
                    predecessors@,
                    source as int,
                    v,
                    (n - 1) as nat,
                ) by {
                    assert(visited@[v]);
                    lemma_chain_from_rank(
                        predecessors@,
                        visited@,
                        rank,
                        source as int,
                        n as int,
                        v,
                    );
                    lemma_chain_ok_mono(
                        predecessors@,
                        source as int,
                        v,
                        rank[v] as nat,
                        (n - 1) as nat,
                    );
                }
                assert forall|uu: int, e: int|
                    #[trigger] g.edge_of(e, uu) && distances@[uu].is_finite() implies relaxed_at(
                    g,
                    distances@,
                    uu,
                    e,
                ) by {
                    assert(visited@[uu]);
                    assert(node_relaxed(g, distances@, uu));
                }
            }
        }
        SSSpResult::assemble(
            distances,
            predecessors,
            nodes_visited,
            edges_relaxed,
            AlgorithmTag::DijkstraOptimized,
        )
    }

    /// Partition the nodes into clusters of capacity `max(32, isqrt(n))` by
    /// ascending index and record every cluster's boundary nodes.
    pub fn build_hierarchical_decomposition(&self) -> (d: HierarchicalDecomposition)
        requires
            self.graph@.csr_in_bounds(),
        ensures
            decomposition_matches(self.graph@, d),
    {
        let ghost g = self.graph@;
        let n = self.graph.node_count;
        let cap = cluster_capacity(n);
        let mut cluster_assignment: Vec<usize> = Vec::new();
        let mut v: usize = 0;
        while v < n
            invariant
                cap as int == spec_capacity(n as int),
                cap >= 32,
                v <= n,
                cluster_assignment@.len() == v,
                forall|x: int|
                    0 <= x < v ==> (#[trigger] cluster_assignment@[x]) as int == x as int / (
                    cap as int),
            decreases n - v,
        {
            cluster_assignment.push(v / cap);
            v += 1;
        }
        let marks = self.identify_boundary_nodes(cap);
        proof {
            vstd::arithmetic::div_mod::lemma_fundamental_div_mod(n as int, cap as int);
            let q = n as int / cap as int;
            let rm = n as int % cap as int;
            assert(q >= 0 && q <= n as int && (rm != 0 ==> q < n as int)) by (nonlinear_arith)
                requires
                    n as int == (cap as int) * q + rm,
                    0 <= rm < (cap as int),
                    (cap as int) >= 1,
                    n as int >= 0,
            ;
        }
        let num_clusters = n / cap + if n % cap != 0 {
            1
        } else {
            0
        };
        let mut clusters: Vec<Cluster> = Vec::new();
        let mut k: usize = 0;
        while k < num_clusters
            invariant
                g == self.graph@,
                n == g.node_count,
                cap as int == spec_capacity(n as int),
                cap >= 32,
                marks@.len() == n,
                forall|x: int| 0 <= x < n ==> (#[trigger] marks@[x]) == is_boundary(g, cap as int, x),
                num_clusters as int == spec_cluster_count(n as int, cap as int),
                k <= num_clusters,
                clusters@.len() == k,
                forall|j: int|
                    0 <= j < k ==> cluster_matches(g, cap as int, j, #[trigger] clusters@[j]),
            decreases num_clusters - k,
        {
            proof {
                vstd::arithmetic::div_mod::lemma_fundamental_div_mod(n as int, cap as int);
                let q = n as int / cap as int;
                let rm = n as int % cap as int;
                assert((k as int) * (cap as int) < n as int) by (nonlinear_arith)
                    requires
                        n as int == q * (cap as int) + rm,
                        0 <= rm < cap as int,
                        cap >= 1,
                        0 <= (k as int),
                        rm == 0 ==> (k as int) < q,
                        rm != 0 ==> (k as int) <= q,
                ;
            }
            let start = k * cap;
            let len = if n - start < cap {
                n - start
            } else {
                cap
            };
            let end = start + len;
            let mut nodes: Vec<usize> = Vec::new();
            let mut boundary_nodes: Vec<usize> = Vec::new();
            let mut i = start;
            while i < end
                invariant
                    g == self.graph@,
                    n == g.node_count,
                    marks@.len() == n,
                    forall|x: int|
                        0 <= x < n ==> (#[trigger] marks@[x]) == is_boundary(g, cap as int, x),
                    start <= i <= end,
                    end <= n,
                    nodes@ == cluster_nodes_shape(start as int, i - start),
                    boundary_nodes@ == boundary_of(g, cap as int, nodes@),
                decreases end - i,
            {
                let ghost old_nodes = nodes@;
                nodes.push(i);
                if marks[i] {
                    boundary_nodes.push(i);
                }
                proof {
                    assert(nodes@.drop_last() =~= old_nodes);
                    assert(nodes@ =~= cluster_nodes_shape(start as int, i + 1 - start));
                }
                i += 1;
            }
            clusters.push(Cluster { id: k, nodes, boundary_nodes });
            k += 1;
        }
        HierarchicalDecomposition { clusters, cluster_assignment }
    }

    /// Scan every node's outgoing edges and mark both endpoints of every
    /// cross-cluster edge: the global boundary set, as a flag per node.
    fn identify_boundary_nodes(&self, cap: usize) -> (marks: Vec<bool>)
        requires
            self.graph@.csr_in_bounds(),
            cap >= 1,
        ensures
            marks@.len() == self.graph@.node_count,
            forall|x: int|
                0 <= x < self.graph@.node_count ==> (#[trigger] marks@[x]) == is_boundary(
                    self.graph@,
                    cap as int,
                    x,
                ),
    {
        let ghost g = self.graph@;
        let n = self.graph.node_count;
        let mut marks: Vec<bool> = vec![false; n];
        let mut u: usize = 0;
        while u < n
            invariant
                g == self.graph@,
                g.csr_in_bounds(),
                n == g.node_count,
                cap >= 1,
                u <= n,
                marks@.len() == n,
                forall|x: int|
                    0 <= x < n ==> (#[trigger] marks@[x]) == exists|u2: int, e2: int|
                        #[trigger] crossing_edge(g, cap as int, e2, u2) && (x == u2 || x
                            == g.edge_dst(e2)) && u2 < u,
            decreases n - u,
        {
            proof {
                g.lemma_offsets_chain(u as int + 1, n as int);
            }
            let edge_start = self.graph.outgoing_edges[u] as usize;
            let edge_end = self.graph.outgoing_edges[u + 1] as usize;
            let mut e = edge_start;
            while e < edge_end
                invariant
                    g == self.graph@,
                    g.csr_in_bounds(),
                    n == g.node_count,
                    (u as int) < n,
                    cap >= 1,
                    edge_start == g.offsets[u as int] as int,
                    edge_end == g.offsets[u as int + 1] as int,
                    edge_start <= e <= edge_end,
                    edge_end <= g.destinations.len(),
                    marks@.len() == n,
                    forall|x: int|
                        0 <= x < n ==> (#[trigger] marks@[x]) == exists|u2: int, e2: int|
                            #[trigger] crossing_edge(g, cap as int, e2, u2) && (x == u2 || x
                                == g.edge_dst(e2)) && (u2 < u || (u2 == u && e2 < e)),
                decreases edge_end - e,
            {
                let dst = self.graph.destinations[e] as usize;
                let ghost old_marks = marks@;
                if dst / cap != u / cap {
                    proof {
                        assert(crossing_edge(g, cap as int, e as int, u as int));
                    }
                    marks.set(u, true);
                    marks.set(dst, true);
                }
                proof {
                    assert forall|x: int| 0 <= x < n implies (#[trigger] marks@[x] == exists|
                        u2: int,
                        e2: int,
                    |
                        #[trigger] crossing_edge(g, cap as int, e2, u2) && (x == u2 || x
                            == g.edge_dst(e2)) && (u2 < u || (u2 == u && e2 < e + 1))) by {
                        if marks@[x] {
                            if old_marks[x] {
                                let (u2, e2) = choose|u2: int, e2: int|
                                    #[trigger] crossing_edge(g, cap as int, e2, u2) && (x == u2 || x
                                        == g.edge_dst(e2)) && (u2 < u || (u2 == u && e2 < e));
                                assert(crossing_edge(g, cap as int, e2, u2) && (x == u2 || x
                                    == g.edge_dst(e2)) && (u2 < u || (u2 == u && e2 < e + 1)));
                            } else {
                                assert(crossing_edge(g, cap as int, e as int, u as int) && (x
                                    == u as int || x == g.edge_dst(e as int)));
                            }
                        } else {
                            if exists|u2: int, e2: int|
                                #[trigger] crossing_edge(g, cap as int, e2, u2) && (x == u2 || x
                                    == g.edge_dst(e2)) && (u2 < u || (u2 == u && e2 < e + 1)) {
                                let (u2, e2) = choose|u2: int, e2: int|
                                    #[trigger] crossing_edge(g, cap as int, e2, u2) && (x == u2 || x
                                        == g.edge_dst(e2)) && (u2 < u || (u2 == u && e2 < e + 1));
                                if u2 == u && e2 == e {
                                    assert(false);
                                } else {
                                    assert(old_marks[x]);
                                    assert(false);
                                }
                            }
                        }
                    }
                }
                e += 1;
            }
            proof {
                assert forall|x: int| 0 <= x < n implies (#[trigger] marks@[x] == exists|
                    u2: int,
                    e2: int,
                |
                    #[trigger] crossing_edge(g, cap as int, e2, u2) && (x == u2 || x == g.edge_dst(
                        e2,
                    )) && u2 < u + 1) by {
                    if marks@[x] {
                        let (u2, e2) = choose|u2: int, e2: int|
                            #[trigger] crossing_edge(g, cap as int, e2, u2) && (x == u2 || x
                                == g.edge_dst(e2)) && (u2 < u || (u2 == u && e2 < edge_end));
                        assert(crossing_edge(g, cap as int, e2, u2) && (x == u2 || x == g.edge_dst(
                            e2,
                        )) && u2 < u + 1);
                    } else {
                        if exists|u2: int, e2: int|
                            #[trigger] crossing_edge(g, cap as int, e2, u2) && (x == u2 || x
                                == g.edge_dst(e2)) && u2 < u + 1 {
                            let (u2, e2) = choose|u2: int, e2: int|
                                #[trigger] crossing_edge(g, cap as int, e2, u2) && (x == u2 || x
                                    == g.edge_dst(e2)) && u2 < u + 1;
                            if u2 == u {
                                assert(g.edge_of(e2, u2));
                                assert(e2 < edge_end);
                            }
                            assert(false);
                        }
                    }
                }
            }
            u += 1;
        }
        proof {
            assert forall|x: int| 0 <= x < n implies (#[trigger] marks@[x] == is_boundary(
                g,
                cap as int,
                x,
            )) by {
                if marks@[x] {
                    let (u2, e2) = choose|u2: int, e2: int|
                        #[trigger] crossing_edge(g, cap as int, e2, u2) && (x == u2 || x
                            == g.edge_dst(e2)) && u2 < n;
                    assert(is_boundary(g, cap as int, x));
                } else {
                    if is_boundary(g, cap as int, x) {
                        let (u2, e2) = choose|u2: int, e2: int|
                            #[trigger] crossing_edge(g, cap as int, e2, u2) && (x == u2 || x
                                == g.edge_dst(e2));
                        assert(g.edge_of(e2, u2));
                        assert(u2 < n);
                        assert(false);
                    }
                }
            }
        }
        marks
    }
}

} // verus!
