//! Consequences of the solve contract, proved once for every result that
//! satisfies it: unreachable nodes are untouched, reachable nodes get finite
//! distances and predecessor chains back to the source, the counters count
//! the reachable set, and distances are a function of graph and source.

use crate::counting::{
    count_if, dist_finite_sel, lemma_count_if_agree, lemma_sum_outdeg_if_agree, reachable_sel,
    sum_outdeg_if,
};
use crate::graph::GraphShape;
use crate::result::{Dist, ResultShape};
use crate::solver::{chain_ok, pred_realized, relaxed_at, result_post};
use vstd::prelude::*;

verus! {

/// Distances propagate along a walk from the source: every node on it ends
/// with a finite distance.
proof fn lemma_walk_finite(g: GraphShape, source: int, rs: ResultShape, p: Seq<int>)
    requires
        result_post(g, source, rs),
        g.nonneg_weights(),
        g.is_walk(p),
        p.first() == source,
    ensures
        rs.distances[p.last()].is_finite(),
    decreases p.len(),
{
    if p.len() == 1 {
        assert(p.last() == source);
    } else {
        let q = p.drop_last();
        assert(g.is_walk(q)) by {
            assert forall|i: int| 0 <= i < q.len() implies 0 <= #[trigger] q[i] < g.node_count by {
                assert(q[i] == p[i]);
            }
            assert forall|i: int| 0 <= i < q.len() - 1 implies g.has_edge(
                #[trigger] q[i],
                q[i + 1],
            ) by {
                assert(q[i] == p[i] && q[i + 1] == p[i + 1]);
            }
        }
        assert(q.first() == source);
        lemma_walk_finite(g, source, rs, q);
        let w = p[p.len() - 2];
        assert(q.last() == w);
        assert(g.has_edge(w, p.last()));
        let e = choose|e: int| #[trigger] g.edge_of(e, w) && g.edge_dst(e) == p.last();
        assert(relaxed_at(g, rs.distances, w, e));
    }
}

/// A node that the solve left unreachable really is unreachable — and the
/// converse: a node the graph cannot reach keeps the sentinel distance and
/// no predecessor.
pub proof fn lemma_unreachable_untouched(g: GraphShape, source: int, rs: ResultShape, v: int)
    requires
        result_post(g, source, rs),
        0 <= v < g.node_count,
        !g.reachable(source, v),
    ensures
        rs.distances[v] == Dist::Unreachable,
        rs.predecessors[v] is None,
{
    if rs.distances[v].is_finite() {
        assert(g.reachable(source, v));
    }
}

/// On a graph with non-negative weights, every node reachable from the
/// source ends with a finite distance.
pub proof fn lemma_reachable_is_finite(g: GraphShape, source: int, rs: ResultShape, v: int)
    requires
        result_post(g, source, rs),
        g.nonneg_weights(),
        g.reachable(source, v),
    ensures
        rs.distances[v].is_finite(),
{
    let p = choose|p: Seq<int>| #[trigger] g.is_walk(p) && p.first() == source && p.last() == v;
    lemma_walk_finite(g, source, rs, p);
}

/// Following predecessors from any reachable node terminates at the source
/// within `node_count - 1` steps.
pub proof fn lemma_predecessor_chain(g: GraphShape, source: int, rs: ResultShape, v: int)
    requires
        result_post(g, source, rs),
        g.nonneg_weights(),
        0 <= v < g.node_count,
        g.reachable(source, v),
    ensures
        chain_ok(rs.predecessors, source, v, (g.node_count - 1) as nat),
{
    lemma_reachable_is_finite(g, source, rs, v);
}

/// The two counters count the reachable set: `nodes_visited` is its size,
/// never more than the node count, and `edges_relaxed` is the sum of the
/// out-degrees of its members.
pub proof fn lemma_relaxation_count(g: GraphShape, source: int, rs: ResultShape)
    requires
        result_post(g, source, rs),
        g.nonneg_weights(),
    ensures
        rs.nodes_visited as int == count_if(reachable_sel(g, source), g.node_count),
        rs.edges_relaxed as int == sum_outdeg_if(g, reachable_sel(g, source), g.node_count),
        rs.nodes_visited as int <= g.node_count,
{
    let n = g.node_count;
    assert forall|v: int|
        0 <= v < n implies #[trigger] dist_finite_sel(rs.distances)(v) == reachable_sel(
        g,
        source,
    )(v) by {
        if g.reachable(source, v) {
            lemma_reachable_is_finite(g, source, rs, v);
        }
    }
    lemma_count_if_agree(dist_finite_sel(rs.distances), reachable_sel(g, source), n);
    lemma_sum_outdeg_if_agree(g, dist_finite_sel(rs.distances), reachable_sel(g, source), n);
}

/// No result can undercut another along its own predecessor chain: whatever
/// `r2` records as finite, `r1` records as finite and no larger.
proof fn lemma_dist_le(
    g: GraphShape,
    source: int,
    r1: ResultShape,
    r2: ResultShape,
    v: int,
    fuel: nat,
)
    requires
        result_post(g, source, r1),
        result_post(g, source, r2),
        g.nonneg_weights(),
        0 <= v < g.node_count,
        r2.distances[v].is_finite(),
        chain_ok(r2.predecessors, source, v, fuel),
    ensures
        r1.distances[v].is_finite(),
        r1.distances[v].val() <= r2.distances[v].val(),
    decreases fuel,
{
    if v != source {
        let u = r2.predecessors[v]->Some_0 as int;
        assert(pred_realized(g, r2.distances, r2.predecessors, v));
        let e = choose|e: int|
            #[trigger] g.edge_of(e, u) && g.edge_dst(e) == v && r2.distances[v].val()
                == r2.distances[u].val() + g.edge_weight(e);
        lemma_dist_le(g, source, r1, r2, u, (fuel - 1) as nat);
        assert(relaxed_at(g, r1.distances, u, e));
    }
}

/// Distances are a function of the graph and the source alone: any two
/// results that satisfy the solve contract on non-negative weights record
/// exactly the same distances.
pub proof fn lemma_solve_distances_deterministic(
    g: GraphShape,
    source: int,
    r1: ResultShape,
    r2: ResultShape,
)
    requires
        result_post(g, source, r1),
        result_post(g, source, r2),
        g.nonneg_weights(),
    ensures
        r1.distances == r2.distances,
{
    let n = g.node_count;
    assert forall|v: int| 0 <= v < n implies r1.distances[v] == r2.distances[v] by {
        if r2.distances[v].is_finite() {
            assert(chain_ok(r2.predecessors, source, v, (n - 1) as nat));
            lemma_dist_le(g, source, r1, r2, v, (n - 1) as nat);
            assert(chain_ok(r1.predecessors, source, v, (n - 1) as nat));
            lemma_dist_le(g, source, r2, r1, v, (n - 1) as nat);
            assert(r1.distances[v].val() == r2.distances[v].val());
        } else if r1.distances[v].is_finite() {
            assert(chain_ok(r1.predecessors, source, v, (n - 1) as nat));
            lemma_dist_le(g, source, r2, r1, v, (n - 1) as nat);
        }
    }
    assert(r1.distances =~= r2.distances);
}

} // verus!
