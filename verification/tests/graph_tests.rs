use spectral_graph_agent_rs::{SgError, SpectralGraph};

const EPS: f64 = 1e-6;

// ── 1. Graph Construction ──────────────────────────────

#[test]
fn graph_create_destroy() {
    let g = SpectralGraph::<f64>::new(5, false);
    assert_eq!(g.n, 5);
}

#[test]
fn graph_create_zero() {
    let g = SpectralGraph::<f64>::new(0, false);
    assert_eq!(g.n, 0);
}

#[test]
fn graph_add_edge_basic() {
    let mut g = SpectralGraph::new(4, false);
    assert!(g.add_edge(0, 1, 1.0).is_ok());
    g.finalize();
}

#[test]
fn graph_add_edge_out_of_bounds() {
    let mut g = SpectralGraph::new(3, false);
    assert_eq!(g.add_edge(0, 5, 1.0), Err(SgError::InvalidParam));
}

#[test]
fn graph_build_path() {
    let mut g = SpectralGraph::new(5, false);
    g.build_path(1.0);
    assert_eq!(g.edge_count(), 4);
    assert!(g.is_connected());
}

#[test]
fn graph_build_cycle() {
    let mut g = SpectralGraph::new(6, false);
    g.build_cycle(1.0);
    assert_eq!(g.edge_count(), 6);
    assert!(g.is_connected());
}

#[test]
fn graph_build_complete() {
    let mut g = SpectralGraph::new(4, false);
    g.build_complete(1.0);
    assert_eq!(g.edge_count(), 6); // n(n-1)/2
    assert!(g.is_connected());
}

#[test]
fn graph_build_star() {
    let mut g = SpectralGraph::new(5, false);
    g.build_star(1.0);
    assert_eq!(g.edge_count(), 4);
    assert!(g.is_connected());
    assert_eq!(g.degree(0), 4); // center
    assert_eq!(g.degree(1), 1); // leaf
}

#[test]
fn graph_build_grid2d() {
    let mut g = SpectralGraph::new(6, false); // 2x3
    assert!(g.build_grid2d(2, 3, 1.0).is_ok());
    assert!(g.is_connected());
    assert_eq!(g.edge_count(), 7); // 2*(3-1) + 3*(2-1) = 7
}

#[test]
fn graph_build_grid2d_bad_size() {
    let mut g = SpectralGraph::new(7, false);
    assert_eq!(g.build_grid2d(2, 3, 1.0), Err(SgError::InvalidParam));
}

// ── 3. Graph Properties ────────────────────────────────

#[test]
fn graph_degree() {
    let mut g = SpectralGraph::new(5, false);
    g.build_star(1.0);
    assert_eq!(g.degree(0), 4);
    assert_eq!(g.degree(4), 1);
    assert_eq!(g.degree(99), 0);
}

#[test]
fn graph_edge_count() {
    let mut g = SpectralGraph::new(5, false);
    g.build_cycle(1.0);
    assert_eq!(g.edge_count(), 5);
}

#[test]
fn graph_is_connected_path() {
    let mut g = SpectralGraph::new(4, false);
    g.build_path(1.0);
    assert!(g.is_connected());
}

#[test]
fn graph_is_connected_disconnected() {
    let mut g = SpectralGraph::<f64>::new(4, false);
    g.finalize(); // no edges
    assert!(!g.is_connected());
}

#[test]
fn graph_is_regular_cycle() {
    let mut g = SpectralGraph::new(6, false);
    g.build_cycle(1.0);
    assert_eq!(g.is_regular(), Some(2));
}

#[test]
fn graph_is_regular_star_not() {
    let mut g = SpectralGraph::new(5, false);
    g.build_star(1.0);
    assert!(g.is_regular().is_none());
}

// ── 11. Robustness ─────────────────────────────────────

#[test]
fn robustness_path_has_articulation_points() {
    let mut g = SpectralGraph::new(5, false);
    g.build_path(1.0);
    assert!(g.count_articulation_points() > 0);
}

// ── 13. Integration Tests ──────────────────────────────

#[test]
fn edge_connectivity() {
    let mut g = SpectralGraph::new(6, false);
    g.build_cycle(1.0);
    assert!((g.edge_connectivity() as f64 - 2.0).abs() < EPS);

    let mut g2 = SpectralGraph::new(4, false);
    g2.build_complete(1.0);
    assert!((g2.edge_connectivity() as f64 - 3.0).abs() < EPS);
}

// ── 14. Edge Cases ─────────────────────────────────────

#[test]
fn single_node_graph() {
    let mut g = SpectralGraph::<f64>::new(1, false);
    g.finalize();
    assert!(g.is_connected());
    assert_eq!(g.edge_count(), 0);
    assert_eq!(g.degree(0), 0);
}

#[test]
fn error_display() {
    assert_eq!(SgError::NullInput.message(), "NULL pointer");
    assert_eq!(SgError::SingularMatrix.message(), "singular matrix");
    assert_eq!(SgError::InvalidParam.message(), "invalid parameter");
}
