use sssp_engine::decomposition::HierarchicalDecomposition;
use sssp_engine::graph::SparseGraph;
use sssp_engine::result::{AlgorithmTag, Dist};
use sssp_engine::solver::{EnhancedSSSpSolver, PreprocessState};

fn diamond_graph() -> SparseGraph {
    // 4 nodes, edges (0->1, w=1), (0->2, w=5), (1->2, w=2), (2->3, w=1)
    SparseGraph::new(4, vec![0, 2, 3, 4, 4], vec![1, 2, 2, 3], vec![1, 5, 2, 1])
}

#[test]
fn validate_accepts_well_formed() {
    assert!(diamond_graph().validate());
}

#[test]
fn validate_rejects_wrong_offsets_length() {
    let g = SparseGraph::new(4, vec![0, 2, 3, 4], vec![1, 2, 2, 3], vec![1, 5, 2, 1]);
    assert!(!g.validate());
}

#[test]
fn validate_rejects_non_monotonic_offsets() {
    let g = SparseGraph::new(4, vec![0, 3, 2, 4, 4], vec![1, 2, 2, 3], vec![1, 5, 2, 1]);
    assert!(!g.validate());
}

#[test]
fn validate_rejects_destination_out_of_range() {
    let g = SparseGraph::new(4, vec![0, 2, 3, 4, 4], vec![1, 4, 2, 3], vec![1, 5, 2, 1]);
    assert!(!g.validate());
}

#[test]
fn validate_rejects_negative_weight() {
    let g = SparseGraph::new(4, vec![0, 2, 3, 4, 4], vec![1, 2, 2, 3], vec![1, -5, 2, 1]);
    assert!(!g.validate());
}

#[test]
fn validate_rejects_weight_array_length_mismatch() {
    let g = SparseGraph::new(4, vec![0, 2, 3, 4, 4], vec![1, 2, 2, 3], vec![1, 5, 2]);
    assert!(!g.validate());
}

#[test]
fn edges_in_bounds_rejects_overrunning_offsets() {
    let g = SparseGraph::new(2, vec![0, 1, 9], vec![1], vec![3]);
    assert!(!g.edges_in_bounds());
    assert!(diamond_graph().edges_in_bounds());
}

#[test]
fn counts_accessible() {
    let g = diamond_graph();
    assert_eq!(g.node_count(), 4);
    assert_eq!(g.edge_count(), 4);
}

#[test]
fn diamond_solve_from_zero() {
    let solver = EnhancedSSSpSolver::new(diamond_graph());
    let r = solver.solve(0).unwrap();
    assert_eq!(
        r.distances(),
        &vec![Dist::Finite(0), Dist::Finite(1), Dist::Finite(3), Dist::Finite(4)]
    );
    assert_eq!(r.predecessors(), &vec![None, Some(0), Some(1), Some(2)]);
    assert_eq!(r.nodes_visited(), 4);
    assert_eq!(r.edges_relaxed(), 4);
    assert_eq!(r.algorithm_used(), AlgorithmTag::DijkstraOptimized);
}

#[test]
fn diamond_solve_after_preprocess_same_distances() {
    let mut solver = EnhancedSSSpSolver::new(diamond_graph());
    assert!(solver.preprocess());
    let r = solver.solve(0).unwrap();
    assert_eq!(r.algorithm_used(), AlgorithmTag::EnhancedSssp);
    assert_eq!(
        r.distances(),
        &vec![Dist::Finite(0), Dist::Finite(1), Dist::Finite(3), Dist::Finite(4)]
    );
    assert_eq!(r.predecessors(), &vec![None, Some(0), Some(1), Some(2)]);
    assert_eq!(r.nodes_visited(), 4);
    assert_eq!(r.edges_relaxed(), 4);
}

#[test]
fn invalid_source_reports_offending_index() {
    let solver = EnhancedSSSpSolver::new(diamond_graph());
    let err = solver.solve(4).unwrap_err();
    assert_eq!(err.source, 4);
    let err = solver.solve(100).unwrap_err();
    assert_eq!(err.source, 100);
}

#[test]
fn solve_from_empty_graph_rejects_source_zero() {
    let solver = EnhancedSSSpSolver::new(SparseGraph::new(0, vec![0], vec![], vec![]));
    assert!(solver.solve(0).is_err());
}

#[test]
fn negative_weight_fails_preprocess_but_solves() {
    let g = SparseGraph::new(3, vec![0, 1, 2, 2], vec![1, 2], vec![4, -7]);
    let mut solver = EnhancedSSSpSolver::new(g);
    assert!(!solver.preprocess());
    assert!(matches!(solver.state, PreprocessState::Unprocessed));
    let r = solver.solve(0).unwrap();
    assert_eq!(r.algorithm_used(), AlgorithmTag::DijkstraOptimized);
    assert_eq!(
        r.distances(),
        &vec![Dist::Finite(0), Dist::Finite(4), Dist::Finite(-3)]
    );
}

#[test]
fn unreachable_nodes_keep_sentinels() {
    // 3 nodes, one edge 0->1; node 2 is unreachable
    let g = SparseGraph::new(3, vec![0, 1, 1, 1], vec![1], vec![7]);
    let solver = EnhancedSSSpSolver::new(g);
    let r = solver.solve(0).unwrap();
    assert_eq!(r.distances()[2], Dist::Unreachable);
    assert_eq!(r.predecessors()[2], None);
    assert_eq!(r.nodes_visited(), 2);
    assert_eq!(r.edges_relaxed(), 1);
}

#[test]
fn counters_ignore_unreachable_out_degrees() {
    // 0->1; 2->0 and 2->1 exist but 2 is unreachable from 0
    let g = SparseGraph::new(3, vec![0, 1, 1, 3], vec![1, 0, 1], vec![2, 1, 1]);
    let solver = EnhancedSSSpSolver::new(g);
    let r = solver.solve(0).unwrap();
    assert_eq!(r.nodes_visited(), 2);
    assert_eq!(r.edges_relaxed(), 1);
    assert_eq!(r.distances()[2], Dist::Unreachable);
}

#[test]
fn lazy_deletion_discards_stale_entries() {
    // 0->1 (w=10), 0->2 (w=1), 2->1 (w=1): node 1 improves after being queued
    let g = SparseGraph::new(3, vec![0, 2, 2, 3], vec![1, 2, 1], vec![10, 1, 1]);
    let solver = EnhancedSSSpSolver::new(g);
    let r = solver.solve(0).unwrap();
    assert_eq!(
        r.distances(),
        &vec![Dist::Finite(0), Dist::Finite(2), Dist::Finite(1)]
    );
    assert_eq!(r.predecessors(), &vec![None, Some(2), Some(0)]);
    assert_eq!(r.nodes_visited(), 3);
    assert_eq!(r.edges_relaxed(), 3);
}

#[test]
fn zero_weight_edges_propagate() {
    let g = SparseGraph::new(3, vec![0, 1, 2, 2], vec![1, 2], vec![0, 0]);
    let solver = EnhancedSSSpSolver::new(g);
    let r = solver.solve(0).unwrap();
    assert_eq!(
        r.distances(),
        &vec![Dist::Finite(0), Dist::Finite(0), Dist::Finite(0)]
    );
}

#[test]
fn repeated_solves_are_bit_identical() {
    let mut solver = EnhancedSSSpSolver::new(diamond_graph());
    assert!(solver.preprocess());
    let r1 = solver.solve(0).unwrap();
    let r2 = solver.solve(0).unwrap();
    assert_eq!(r1.distances(), r2.distances());
    assert_eq!(r1.predecessors(), r2.predecessors());
    assert_eq!(r1.nodes_visited(), r2.nodes_visited());
    assert_eq!(r1.edges_relaxed(), r2.edges_relaxed());
}

fn decomposition_of(solver: &EnhancedSSSpSolver) -> &HierarchicalDecomposition {
    match &solver.state {
        PreprocessState::Preprocessed(d) => d,
        PreprocessState::Unprocessed => panic!("solver is unprocessed"),
    }
}

#[test]
fn preprocess_is_idempotent() {
    let mut solver = EnhancedSSSpSolver::new(diamond_graph());
    assert!(solver.preprocess());
    let d1 = decomposition_of(&solver).clone();
    assert!(solver.preprocess());
    let d2 = decomposition_of(&solver).clone();
    assert_eq!(d1, d2);
}

#[test]
fn clustering_fills_by_node_index() {
    // 40 nodes, one cross-cluster edge 0 -> 35; capacity is max(32, isqrt(40)) = 32
    let mut offsets = vec![1u32; 41];
    offsets[0] = 0;
    let g = SparseGraph::new(40, offsets, vec![35], vec![7]);
    let mut solver = EnhancedSSSpSolver::new(g);
    assert!(solver.preprocess());
    let d = decomposition_of(&solver);
    assert_eq!(d.cluster_assignment.len(), 40);
    assert_eq!(d.cluster_assignment[0], 0);
    assert_eq!(d.cluster_assignment[31], 0);
    assert_eq!(d.cluster_assignment[32], 1);
    assert_eq!(d.clusters.len(), 2);
    assert_eq!(d.clusters[0].id, 0);
    assert_eq!(d.clusters[0].nodes, (0..32).collect::<Vec<usize>>());
    assert_eq!(d.clusters[1].nodes, (32..40).collect::<Vec<usize>>());
    // both endpoints of the crossing edge are boundary nodes
    assert_eq!(d.clusters[0].boundary_nodes, vec![0]);
    assert_eq!(d.clusters[1].boundary_nodes, vec![35]);
}

#[test]
fn cluster_capacity_tracks_square_root() {
    // 1156 = 34 * 34 nodes with no edges: capacity is isqrt(1156) = 34
    let g = SparseGraph::new(1156, vec![0u32; 1157], vec![], vec![]);
    let mut solver = EnhancedSSSpSolver::new(g);
    assert!(solver.preprocess());
    let d = decomposition_of(&solver);
    assert_eq!(d.clusters.len(), 34);
    assert_eq!(d.cluster_assignment[67], 1);
    assert_eq!(d.clusters[33].nodes.len(), 34);
    for c in &d.clusters {
        assert!(c.boundary_nodes.is_empty());
    }
}

#[test]
fn partial_final_cluster() {
    // 70 nodes at capacity 32: clusters of 32, 32, 6
    let g = SparseGraph::new(70, vec![0u32; 71], vec![], vec![]);
    let mut solver = EnhancedSSSpSolver::new(g);
    assert!(solver.preprocess());
    let d = decomposition_of(&solver);
    assert_eq!(d.clusters.len(), 3);
    assert_eq!(d.clusters[0].nodes.len(), 32);
    assert_eq!(d.clusters[1].nodes.len(), 32);
    assert_eq!(d.clusters[2].nodes.len(), 6);
    assert_eq!(d.clusters[2].id, 2);
}

#[test]
fn solver_reusable_across_states() {
    let mut solver = EnhancedSSSpSolver::new(diamond_graph());
    let before = solver.solve(1).unwrap();
    assert_eq!(before.algorithm_used(), AlgorithmTag::DijkstraOptimized);
    assert_eq!(before.distances()[0], Dist::Unreachable);
    assert_eq!(before.distances()[3], Dist::Finite(3));
    assert!(solver.preprocess());
    let after = solver.solve(1).unwrap();
    assert_eq!(after.algorithm_used(), AlgorithmTag::EnhancedSssp);
    assert_eq!(after.distances(), before.distances());
}
