use spectral_graph_agent_rs::{SgError, SpectralGraph};

fn targets(g: &SpectralGraph<f64>, v: usize) -> Vec<usize> {
    g.neighbors(v).iter().map(|&(u, _)| u).collect()
}

#[test]
fn add_edge_after_finalize_is_refused() {
    let mut g = SpectralGraph::new(3, false);
    assert!(g.add_edge(0, 1, 1.0).is_ok());
    g.finalize();
    assert_eq!(g.add_edge(1, 2, 1.0), Err(SgError::InvalidParam));
    assert_eq!(g.edge_count(), 1);
    assert_eq!(g.degree(2), 0);
}

#[test]
fn add_edge_first_endpoint_out_of_range() {
    let mut g = SpectralGraph::new(3, true);
    assert_eq!(g.add_edge(3, 0, 1.0), Err(SgError::InvalidParam));
}

#[test]
fn adjacency_only_after_finalize() {
    let mut g = SpectralGraph::new(3, false);
    g.add_edge(0, 1, 2.5).unwrap();
    assert_eq!(g.degree(0), 0);
    assert!(!g.is_finalized());
    g.finalize();
    assert!(g.is_finalized());
    assert_eq!(g.neighbors(0), &vec![(1, 2.5)]);
    assert_eq!(g.neighbors(1), &vec![(0, 2.5)]);
}

#[test]
fn finalize_twice_changes_nothing() {
    let mut g = SpectralGraph::new(4, false);
    g.build_path(1.0);
    let before: Vec<Vec<usize>> = (0..4).map(|v| targets(&g, v)).collect();
    g.finalize();
    let after: Vec<Vec<usize>> = (0..4).map(|v| targets(&g, v)).collect();
    assert_eq!(before, after);
}

#[test]
fn undirected_entries_are_symmetric() {
    let mut g = SpectralGraph::new(5, false);
    g.add_edge(0, 3, 1.0).unwrap();
    g.add_edge(4, 1, 2.0).unwrap();
    g.add_edge(2, 2, 3.0).unwrap();
    g.finalize();
    for a in 0..5 {
        for b in targets(&g, a) {
            assert!(targets(&g, b).contains(&a));
        }
    }
    // a self-loop is recorded once
    assert_eq!(targets(&g, 2), vec![2]);
}

#[test]
fn directed_edges_go_one_way() {
    let mut g = SpectralGraph::new(3, true);
    g.add_edge(0, 1, 1.0).unwrap();
    g.add_edge(1, 2, 1.0).unwrap();
    g.finalize();
    assert!(g.is_directed());
    assert_eq!(g.edge_count(), 2);
    assert_eq!(targets(&g, 1), vec![2]);
    assert!(g.is_connected());
    let mut h = SpectralGraph::new(3, true);
    h.add_edge(1, 0, 1.0).unwrap();
    h.add_edge(1, 2, 1.0).unwrap();
    h.finalize();
    // nothing leaves vertex 0
    assert!(!h.is_connected());
}

#[test]
fn adjacency_keeps_recording_order() {
    let mut g = SpectralGraph::new(4, true);
    g.add_edge(0, 3, 1.0).unwrap();
    g.add_edge(0, 1, 2.0).unwrap();
    g.add_edge(0, 2, 3.0).unwrap();
    g.finalize();
    assert_eq!(g.neighbors(0), &vec![(3, 1.0), (1, 2.0), (2, 3.0)]);
}

#[test]
fn complete_graph_counts_and_degrees() {
    for n in 1..8usize {
        let mut g = SpectralGraph::new(n, false);
        g.build_complete(1.0);
        assert_eq!(g.edge_count() * 2, n * (n - 1));
        assert_eq!(g.is_regular(), Some(n - 1));
        assert!(g.is_connected());
    }
}

#[test]
fn path_graph_degrees() {
    let mut g = SpectralGraph::new(5, false);
    g.build_path(1.0);
    assert_eq!(g.degree(0), 1);
    assert_eq!(g.degree(2), 2);
    assert_eq!(g.degree(4), 1);
    assert_eq!(g.edge_connectivity(), 1);
}

#[test]
fn cycle_of_two_is_a_double_edge() {
    let mut g = SpectralGraph::new(2, false);
    g.build_cycle(1.0);
    assert_eq!(g.edge_count(), 2);
    assert_eq!(g.is_regular(), Some(2));
}

#[test]
fn builders_on_finalized_graph_change_nothing() {
    let mut g = SpectralGraph::new(4, false);
    g.build_path(1.0);
    g.build_complete(1.0);
    assert_eq!(g.edge_count(), 3);
    assert_eq!(g.build_grid2d(2, 2, 1.0), Ok(()));
    assert_eq!(g.edge_count(), 3);
}

#[test]
fn grid_counts() {
    let mut g = SpectralGraph::new(12, false);
    assert!(g.build_grid2d(3, 4, 1.0).is_ok());
    assert_eq!(g.edge_count(), 3 * 3 + 4 * 2);
    assert_eq!(g.degree(0), 2);
    assert_eq!(g.degree(5), 4);
    assert!(g.is_connected());
}

#[test]
fn grid_overflowing_shape_is_refused() {
    let mut g = SpectralGraph::<f64>::new(4, false);
    assert_eq!(g.build_grid2d(usize::MAX, 2, 1.0), Err(SgError::InvalidParam));
    assert!(!g.is_finalized());
}

#[test]
fn empty_graph_properties() {
    let mut g = SpectralGraph::<f64>::new(0, false);
    g.finalize();
    assert!(g.is_connected());
    assert_eq!(g.is_regular(), Some(0));
    assert_eq!(g.edge_connectivity(), 0);
    assert_eq!(g.edge_count(), 0);
    assert_eq!(g.count_articulation_points(), 0);
}

#[test]
fn star_center_is_the_only_articulation_point() {
    let mut g = SpectralGraph::new(5, false);
    g.build_star(1.0);
    assert_eq!(g.count_articulation_points(), 1);
}

#[test]
fn articulation_points_of_families() {
    let mut p = SpectralGraph::new(5, false);
    p.build_path(1.0);
    assert_eq!(p.count_articulation_points(), 3);
    let mut c = SpectralGraph::new(6, false);
    c.build_cycle(1.0);
    assert_eq!(c.count_articulation_points(), 0);
    let mut k = SpectralGraph::new(4, false);
    k.build_complete(1.0);
    assert_eq!(k.count_articulation_points(), 0);
}

#[test]
fn articulation_point_between_two_triangles() {
    // two triangles sharing vertex 2
    let mut g = SpectralGraph::new(5, false);
    for &(a, b) in &[(0, 1), (1, 2), (0, 2), (2, 3), (3, 4), (2, 4)] {
        g.add_edge(a, b, 1.0).unwrap();
    }
    g.finalize();
    assert_eq!(g.count_articulation_points(), 1);
}

#[test]
fn articulation_points_in_disconnected_graph() {
    let mut g = SpectralGraph::new(6, false);
    g.add_edge(0, 1, 1.0).unwrap();
    g.add_edge(1, 2, 1.0).unwrap();
    g.add_edge(3, 4, 1.0).unwrap();
    g.add_edge(4, 5, 1.0).unwrap();
    g.finalize();
    assert!(!g.is_connected());
    assert_eq!(g.count_articulation_points(), 2);
}

#[test]
fn error_messages() {
    assert_eq!(SgError::AllocationFailed.message(), "allocation failure");
    assert_eq!(SgError::NoConvergence.message(), "no convergence");
    assert_eq!(SgError::Disconnected.message(), "disconnected graph");
}

#[test]
fn repeated_edge_does_not_make_the_root_a_cut_vertex() {
    // the root reaches its only child through two entries; only vertex 1 cuts
    let mut g = SpectralGraph::new(3, false);
    g.add_edge(0, 1, 1.0).unwrap();
    g.add_edge(0, 1, 1.0).unwrap();
    g.add_edge(1, 2, 1.0).unwrap();
    g.finalize();
    assert_eq!(g.count_articulation_points(), 1);
}

#[test]
fn undirected_self_loop_counts_as_one_edge() {
    let mut g = SpectralGraph::new(3, false);
    g.add_edge(0, 1, 1.0).unwrap();
    g.add_edge(1, 1, 1.0).unwrap();
    g.finalize();
    assert_eq!(g.edge_count(), 2);
    assert_eq!(g.degree(0), 1);
    assert_eq!(g.degree(1), 2);
    assert_eq!(g.degree(2), 0);
}

#[test]
fn directed_self_loop_counts_as_one_edge() {
    let mut g = SpectralGraph::new(2, true);
    g.add_edge(0, 0, 1.0).unwrap();
    g.add_edge(0, 1, 1.0).unwrap();
    g.finalize();
    assert_eq!(g.edge_count(), 2);
    assert_eq!(g.degree(0), 2);
    assert_eq!(g.degree(1), 0);
}

#[test]
fn cycle_on_one_vertex_is_one_loop() {
    let mut g = SpectralGraph::new(1, false);
    g.build_cycle(1.0);
    assert_eq!(g.edge_count(), 1);
    assert_eq!(g.degree(0), 1);
}

#[test]
fn parallel_undirected_edges_count_separately() {
    let mut g = SpectralGraph::new(2, false);
    g.add_edge(0, 1, 1.0).unwrap();
    g.add_edge(1, 0, 2.0).unwrap();
    g.finalize();
    assert_eq!(g.edge_count(), 2);
    assert_eq!(g.degree(0), 2);
    assert_eq!(g.degree(1), 2);
}

#[test]
fn cluster_precheck_refuses_zero_clusters() {
    let mut g = SpectralGraph::new(4, false);
    g.build_path(1.0);
    assert_eq!(g.cluster_precheck(0), Err(SgError::InvalidParam));
}

#[test]
fn cluster_precheck_refuses_more_clusters_than_vertices() {
    let mut g = SpectralGraph::new(4, false);
    g.build_path(1.0);
    assert_eq!(g.cluster_precheck(5), Err(SgError::InvalidParam));
}

#[test]
fn cluster_precheck_one_cluster_is_all_zeros() {
    let mut g = SpectralGraph::new(4, false);
    g.build_path(1.0);
    assert_eq!(g.cluster_precheck(1), Ok(Some(vec![0, 0, 0, 0])));
}

#[test]
fn cluster_precheck_leaves_two_clusters_to_the_spectrum() {
    let mut g = SpectralGraph::new(4, false);
    g.build_path(1.0);
    assert_eq!(g.cluster_precheck(2), Ok(None));
    assert_eq!(g.cluster_precheck(4), Ok(None));
}
