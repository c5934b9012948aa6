use wasmtea::analysis::{Analysis, EXACT_ALGO_LIMIT};
use wasmtea::graph::Graph;

fn generated(kind: &str, n: u32) -> Graph {
    let mut g = Graph::new();
    g.generate(kind, n);
    g
}

fn analyzed(kind: &str, n: u32) -> Analysis {
    generated(kind, n).analyze()
}

#[test]
fn empty_graph_report() {
    let r = Graph::new().analyze();
    assert_eq!(r.vertex_count, 0);
    assert_eq!(r.edge_count, 0);
    assert_eq!(r.max_edges, 0);
    assert!(r.is_connected);
    assert_eq!(r.connected_components, 0);
    assert_eq!((r.min_degree, r.max_degree, r.degree_sum), (0, 0, 0));
    assert!(r.degree_sequence.is_empty());
    assert!(r.is_bipartite);
    assert!(!r.has_eulerian_circuit);
    assert!(!r.has_eulerian_path);
    assert_eq!(r.diameter, 0);
    assert_eq!(r.chromatic_number_greedy, 0);
    assert_eq!((r.max_independent_set, r.min_vertex_cover, r.max_clique), (0, 0, 0));
    assert!(r.exact_computed);
}

#[test]
fn single_vertex_report() {
    let mut g = Graph::new();
    g.add_vertex();
    let r = g.analyze();
    assert_eq!(r.vertex_count, 1);
    assert_eq!(r.max_edges, 0);
    assert!(r.is_connected);
    assert_eq!(r.connected_components, 1);
    assert_eq!(r.degree_sequence, vec![0]);
    assert!(!r.has_eulerian_circuit);
    assert!(!r.has_eulerian_path);
    assert_eq!(r.diameter, 0);
    assert_eq!(r.chromatic_number_greedy, 1);
    assert_eq!((r.max_independent_set, r.min_vertex_cover, r.max_clique), (1, 0, 1));
}

#[test]
fn complete_four_report() {
    let r = analyzed("complete", 4);
    assert_eq!(r.vertex_count, 4);
    assert_eq!(r.edge_count, 6);
    assert_eq!(r.max_edges, 6);
    assert!(r.is_connected);
    assert_eq!(r.connected_components, 1);
    assert_eq!(r.degree_sequence, vec![3, 3, 3, 3]);
    assert_eq!((r.min_degree, r.max_degree, r.degree_sum), (3, 3, 12));
    assert!(!r.is_bipartite);
    assert!(!r.has_eulerian_circuit);
    assert!(!r.has_eulerian_path);
    assert_eq!(r.diameter, 1);
    assert_eq!(r.chromatic_number_greedy, 4);
    assert_eq!((r.max_independent_set, r.min_vertex_cover, r.max_clique), (1, 3, 4));
    assert!(r.exact_computed);
}

#[test]
fn path_report_has_eulerian_path() {
    let r = analyzed("path", 4);
    assert_eq!(r.degree_sequence, vec![2, 2, 1, 1]);
    assert_eq!((r.min_degree, r.max_degree), (1, 2));
    assert!(r.is_bipartite);
    assert!(!r.has_eulerian_circuit);
    assert!(r.has_eulerian_path);
    assert_eq!(r.diameter, 3);
    assert_eq!(r.chromatic_number_greedy, 2);
    assert_eq!((r.max_independent_set, r.min_vertex_cover, r.max_clique), (2, 2, 2));
}

#[test]
fn cycle_report_has_eulerian_circuit() {
    let r = analyzed("cycle", 4);
    assert!(r.has_eulerian_circuit);
    assert!(!r.has_eulerian_path);
    assert_eq!(r.diameter, 2);
    assert!(r.is_bipartite);
    let r = analyzed("cycle", 5);
    assert!(!r.is_bipartite);
    assert_eq!(r.chromatic_number_greedy, 3);
    assert_eq!(r.max_independent_set, 2);
}

#[test]
fn petersen_report() {
    let r = analyzed("petersen", 0);
    assert_eq!(r.vertex_count, 10);
    assert_eq!(r.edge_count, 15);
    assert_eq!(r.max_edges, 45);
    assert_eq!(r.degree_sequence, vec![3; 10]);
    assert_eq!(r.degree_sum, 30);
    assert!(r.is_connected);
    assert!(!r.is_bipartite);
    assert!(!r.has_eulerian_circuit);
    assert!(!r.has_eulerian_path);
    assert_eq!(r.diameter, 2);
    assert_eq!(r.chromatic_number_greedy, 3);
    assert_eq!((r.max_independent_set, r.min_vertex_cover, r.max_clique), (4, 6, 2));
}

#[test]
fn star_and_wheel_reports() {
    let r = analyzed("star", 4);
    assert_eq!(r.degree_sequence, vec![4, 1, 1, 1, 1]);
    assert!(r.is_bipartite);
    assert_eq!(r.diameter, 2);
    assert_eq!(r.max_independent_set, 4);
    let r = analyzed("wheel", 4);
    assert_eq!(r.degree_sequence, vec![4, 3, 3, 3, 3]);
    assert_eq!(r.max_clique, 3);
    assert_eq!(r.diameter, 2);
    assert!(!r.has_eulerian_path);
}

#[test]
fn disconnected_report() {
    let mut g = Graph::new();
    for _ in 0..4 {
        g.add_vertex();
    }
    g.add_edge(0, 1);
    let r = g.analyze();
    assert!(!r.is_connected);
    assert_eq!(r.connected_components, 3);
    assert_eq!(r.diameter, -1);
    // the single edge is a trail; the isolated vertices do not count
    assert!(!r.has_eulerian_circuit);
    assert!(r.has_eulerian_path);
    assert_eq!(r.max_independent_set, 3);
    assert_eq!(r.min_vertex_cover, 1);
}

#[test]
fn exact_search_at_the_limit() {
    let r = analyzed("path", EXACT_ALGO_LIMIT as u32);
    assert_eq!(r.vertex_count, 25);
    assert!(r.exact_computed);
    assert_eq!(r.max_independent_set, 13);
    assert_eq!(r.min_vertex_cover, 12);
    assert_eq!(r.max_clique, 2);
    assert_eq!(r.diameter, 24);
}

#[test]
fn exact_search_skipped_above_the_limit() {
    let r = analyzed("grid", 6);
    assert_eq!(r.vertex_count, 36);
    assert_eq!(r.edge_count, 60);
    assert!(!r.exact_computed);
    assert_eq!(r.max_independent_set, 0);
    assert_eq!(r.min_vertex_cover, 36);
    assert_eq!(r.max_clique, 0);
    assert!(r.is_bipartite);
    assert_eq!(r.diameter, 10);
    assert_eq!(r.max_edges, 630);
}

#[test]
fn handshake_on_every_preset() {
    for kind in ["complete", "cycle", "path", "star", "wheel", "petersen", "bipartite", "grid"] {
        for n in 0..6 {
            let r = analyzed(kind, n);
            assert_eq!(r.degree_sum, 2 * r.edge_count as u64);
            assert_eq!(r.degree_sequence.iter().map(|&d| d as u64).sum::<u64>(), r.degree_sum);
            assert!(r.min_vertex_cover + r.max_independent_set == r.vertex_count as u32);
        }
    }
}

#[test]
fn analysis_after_deleting_a_vertex_uses_positions() {
    let mut g = generated("star", 3);
    g.delete_vertex(0);
    let r = g.analyze();
    assert_eq!(r.vertex_count, 3);
    assert_eq!(r.edge_count, 0);
    assert_eq!(r.connected_components, 3);
    assert_eq!(r.max_independent_set, 3);
}

#[test]
fn eulerian_flags_ignore_isolated_vertices() {
    let mut g = Graph::new();
    for _ in 0..4 {
        g.add_vertex();
    }
    g.add_edge(0, 1);
    g.add_edge(1, 2);
    g.add_edge(2, 0);
    let r = g.analyze();
    assert!(!r.is_connected);
    assert_eq!(r.connected_components, 2);
    assert!(r.has_eulerian_circuit);
    assert!(!r.has_eulerian_path);
    assert_eq!(r.diameter, -1);
}

#[test]
fn eulerian_flags_need_the_edges_connected() {
    // two separate edges: four odd degrees, and the edges do not meet
    let mut g = Graph::new();
    for _ in 0..4 {
        g.add_vertex();
    }
    g.add_edge(0, 1);
    g.add_edge(2, 3);
    let r = g.analyze();
    assert!(!r.has_eulerian_circuit);
    assert!(!r.has_eulerian_path);
    // two separate triangles: even degrees, but not one circuit
    let mut g = Graph::new();
    for _ in 0..6 {
        g.add_vertex();
    }
    for (a, b) in [(0, 1), (1, 2), (2, 0), (3, 4), (4, 5), (5, 3)] {
        g.add_edge(a, b);
    }
    let r = g.analyze();
    assert!(!r.has_eulerian_circuit);
    assert!(!r.has_eulerian_path);
}

#[test]
fn colour_and_clique_bounds_on_presets() {
    for kind in ["complete", "cycle", "path", "star", "wheel", "petersen", "bipartite", "grid"] {
        for n in 2..6 {
            let r = analyzed(kind, n);
            assert!(1 <= r.chromatic_number_greedy);
            assert!(r.chromatic_number_greedy <= r.max_degree + 1);
            assert!(r.max_clique <= r.chromatic_number_greedy);
            if r.is_bipartite && r.edge_count > 0 {
                assert_eq!(r.max_clique, 2);
            }
        }
    }
}
