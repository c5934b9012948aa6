use wasmtea::graph::Graph;

fn ids(g: &Graph) -> Vec<u32> {
    g.vertices().iter().map(|v| v.id).collect()
}

fn triples(g: &Graph) -> Vec<(u32, u32, u32)> {
    g.edges().iter().map(|e| (e.id, e.from, e.to)).collect()
}

#[test]
fn new_graph_is_empty() {
    let g = Graph::new();
    assert_eq!(g.vertex_count(), 0);
    assert_eq!(g.edge_count(), 0);
    assert_eq!(g.next_vertex_id(), 0);
    assert_eq!(g.next_edge_id(), 0);
}

#[test]
fn add_vertex_hands_out_consecutive_ids_and_labels() {
    let mut g = Graph::new();
    assert_eq!(g.add_vertex(), 0);
    assert_eq!(g.add_vertex(), 1);
    assert_eq!(g.add_vertex(), 2);
    assert_eq!(g.vertex_count(), 3);
    assert_eq!(ids(&g), vec![0, 1, 2]);
    let labels: Vec<String> = g.vertices().iter().map(|v| v.label.clone()).collect();
    assert_eq!(labels, vec!["0", "1", "2"]);
}

#[test]
fn labels_are_decimal_ids_past_nine() {
    let mut g = Graph::new();
    for _ in 0..12 {
        g.add_vertex();
    }
    assert_eq!(g.vertices()[10].label, "10");
    assert_eq!(g.vertices()[11].label, "11");
}

#[test]
fn add_edge_accepts_a_new_pair() {
    let mut g = Graph::new();
    g.add_vertex();
    g.add_vertex();
    assert!(g.accepts_edge(0, 1));
    assert!(g.add_edge(0, 1));
    assert_eq!(g.edge_count(), 1);
    assert_eq!(triples(&g), vec![(0, 0, 1)]);
    assert_eq!(g.next_edge_id(), 1);
}

#[test]
fn add_edge_refuses_self_loop() {
    let mut g = Graph::new();
    g.add_vertex();
    assert!(!g.accepts_edge(0, 0));
    assert!(!g.add_edge(0, 0));
    assert_eq!(g.edge_count(), 0);
    assert_eq!(g.next_edge_id(), 0);
}

#[test]
fn add_edge_refuses_missing_endpoint() {
    let mut g = Graph::new();
    g.add_vertex();
    assert!(!g.add_edge(0, 5));
    assert!(!g.add_edge(5, 0));
    assert_eq!(g.edge_count(), 0);
}

#[test]
fn add_edge_refuses_duplicate_in_either_direction() {
    let mut g = Graph::new();
    g.add_vertex();
    g.add_vertex();
    assert!(g.add_edge(0, 1));
    assert!(!g.add_edge(0, 1));
    assert!(!g.add_edge(1, 0));
    assert_eq!(g.edge_count(), 1);
    assert_eq!(g.next_edge_id(), 1);
}

#[test]
fn delete_vertex_removes_its_edges() {
    let mut g = Graph::new();
    for _ in 0..3 {
        g.add_vertex();
    }
    assert!(g.add_edge(0, 1));
    assert!(g.add_edge(1, 2));
    assert!(g.add_edge(0, 2));
    g.delete_vertex(1);
    assert_eq!(ids(&g), vec![0, 2]);
    assert_eq!(triples(&g), vec![(2, 0, 2)]);
    // ids are never reused
    assert_eq!(g.add_vertex(), 3);
}

#[test]
fn delete_missing_vertex_changes_nothing() {
    let mut g = Graph::new();
    g.add_vertex();
    g.add_vertex();
    g.add_edge(0, 1);
    g.delete_vertex(7);
    assert_eq!(ids(&g), vec![0, 1]);
    assert_eq!(triples(&g), vec![(0, 0, 1)]);
}

#[test]
fn delete_edge_by_id() {
    let mut g = Graph::new();
    for _ in 0..3 {
        g.add_vertex();
    }
    g.add_edge(0, 1);
    g.add_edge(1, 2);
    g.delete_edge(0);
    assert_eq!(triples(&g), vec![(1, 1, 2)]);
    g.delete_edge(9);
    assert_eq!(triples(&g), vec![(1, 1, 2)]);
    // the pair may be joined again, under a fresh id
    assert!(g.add_edge(1, 0));
    assert_eq!(triples(&g), vec![(1, 1, 2), (2, 1, 0)]);
}

#[test]
fn delete_edge_undoes_add_edge() {
    let mut g = Graph::new();
    for _ in 0..3 {
        g.add_vertex();
    }
    g.add_edge(0, 1);
    let before = triples(&g);
    let id = g.next_edge_id();
    assert!(g.add_edge(2, 1));
    g.delete_edge(id);
    assert_eq!(triples(&g), before);
    assert_eq!(g.next_edge_id(), id + 1);
}

#[test]
fn delete_vertex_undoes_add_vertex() {
    let mut g = Graph::new();
    g.add_vertex();
    g.add_vertex();
    g.add_edge(0, 1);
    let before_ids = ids(&g);
    let before_edges = triples(&g);
    let v = g.add_vertex();
    g.delete_vertex(v);
    assert_eq!(ids(&g), before_ids);
    assert_eq!(triples(&g), before_edges);
}

#[test]
fn build_adj_is_symmetric_matrix_by_position() {
    let mut g = Graph::new();
    for _ in 0..4 {
        g.add_vertex();
    }
    g.add_edge(3, 1);
    g.delete_vertex(0);
    // positions: 1 -> 0, 2 -> 1, 3 -> 2
    let (n, adj) = g.build_adj();
    assert_eq!(n, 3);
    assert_eq!(
        adj,
        vec![vec![false, false, true], vec![false, false, false], vec![true, false, false]]
    );
}
