use wasmtea::graph::Graph;
use wasmtea::presets::{preset_fits, preset_from_name, Preset};

fn triples(g: &Graph) -> Vec<(u32, u32, u32)> {
    g.edges().iter().map(|e| (e.id, e.from, e.to)).collect()
}

fn pairs(g: &Graph) -> Vec<(u32, u32)> {
    g.edges().iter().map(|e| (e.from, e.to)).collect()
}

fn generated(kind: &str, n: u32) -> Graph {
    let mut g = Graph::new();
    g.generate(kind, n);
    g
}

#[test]
fn names_map_to_presets() {
    assert_eq!(preset_from_name("complete"), Some(Preset::Complete));
    assert_eq!(preset_from_name("cycle"), Some(Preset::Cycle));
    assert_eq!(preset_from_name("path"), Some(Preset::Path));
    assert_eq!(preset_from_name("star"), Some(Preset::Star));
    assert_eq!(preset_from_name("wheel"), Some(Preset::Wheel));
    assert_eq!(preset_from_name("petersen"), Some(Preset::Petersen));
    assert_eq!(preset_from_name("bipartite"), Some(Preset::Bipartite));
    assert_eq!(preset_from_name("grid"), Some(Preset::Grid));
    assert_eq!(preset_from_name("Grid"), None);
    assert_eq!(preset_from_name(""), None);
    assert_eq!(preset_from_name("gridx"), None);
}

#[test]
fn complete_preset() {
    let g = generated("complete", 4);
    assert_eq!(g.vertex_count(), 4);
    assert_eq!(
        triples(&g),
        vec![(0, 0, 1), (1, 0, 2), (2, 0, 3), (3, 1, 2), (4, 1, 3), (5, 2, 3)]
    );
}

#[test]
fn cycle_preset() {
    let g = generated("cycle", 5);
    assert_eq!(g.vertex_count(), 5);
    assert_eq!(pairs(&g), vec![(0, 1), (1, 2), (2, 3), (3, 4), (4, 0)]);
}

#[test]
fn cycle_of_two_has_one_edge() {
    // the closing pair repeats the first and is refused
    let g = generated("cycle", 2);
    assert_eq!(g.vertex_count(), 2);
    assert_eq!(triples(&g), vec![(0, 0, 1)]);
    assert_eq!(g.next_edge_id(), 1);
}

#[test]
fn size_below_two_is_raised_to_two() {
    let g = generated("path", 0);
    assert_eq!(g.vertex_count(), 2);
    assert_eq!(pairs(&g), vec![(0, 1)]);
    let g = generated("complete", 1);
    assert_eq!(g.vertex_count(), 2);
    assert_eq!(g.edge_count(), 1);
}

#[test]
fn path_preset() {
    let g = generated("path", 4);
    assert_eq!(g.vertex_count(), 4);
    assert_eq!(pairs(&g), vec![(0, 1), (1, 2), (2, 3)]);
}

#[test]
fn star_preset() {
    let g = generated("star", 3);
    assert_eq!(g.vertex_count(), 4);
    assert_eq!(pairs(&g), vec![(0, 1), (0, 2), (0, 3)]);
}

#[test]
fn wheel_preset() {
    let g = generated("wheel", 3);
    assert_eq!(g.vertex_count(), 4);
    assert_eq!(pairs(&g), vec![(0, 1), (0, 2), (0, 3), (1, 2), (2, 3), (3, 1)]);
    let g = generated("wheel", 2);
    assert_eq!(g.vertex_count(), 3);
    assert_eq!(pairs(&g), vec![(0, 1), (0, 2), (1, 2)]);
}

#[test]
fn petersen_preset_ignores_size() {
    let g = generated("petersen", 7);
    assert_eq!(g.vertex_count(), 10);
    assert_eq!(g.edge_count(), 15);
    assert_eq!(
        pairs(&g),
        vec![
            (0, 1), (1, 2), (2, 3), (3, 4), (4, 0),
            (5, 7), (6, 8), (7, 9), (8, 5), (9, 6),
            (0, 5), (1, 6), (2, 7), (3, 8), (4, 9),
        ]
    );
}

#[test]
fn bipartite_preset() {
    let g = generated("bipartite", 2);
    assert_eq!(g.vertex_count(), 4);
    assert_eq!(pairs(&g), vec![(0, 2), (0, 3), (1, 2), (1, 3)]);
    assert_eq!(generated("bipartite", 3).edge_count(), 9);
}

#[test]
fn grid_preset() {
    let g = generated("grid", 2);
    assert_eq!(g.vertex_count(), 4);
    assert_eq!(pairs(&g), vec![(0, 1), (0, 2), (1, 3), (2, 3)]);
    let g = generated("grid", 3);
    assert_eq!(g.vertex_count(), 9);
    assert_eq!(g.edge_count(), 12);
}

#[test]
fn unknown_kind_leaves_graph_empty() {
    let mut g = Graph::new();
    g.add_vertex();
    g.add_vertex();
    g.add_edge(0, 1);
    g.generate("hypercube", 4);
    assert_eq!(g.vertex_count(), 0);
    assert_eq!(g.edge_count(), 0);
    assert_eq!(g.next_vertex_id(), 0);
    assert_eq!(g.next_edge_id(), 0);
}

#[test]
fn generate_replaces_previous_graph_and_counters() {
    let mut g = Graph::new();
    for _ in 0..5 {
        g.add_vertex();
    }
    g.add_edge(3, 4);
    g.generate("path", 3);
    let ids: Vec<u32> = g.vertices().iter().map(|v| v.id).collect();
    assert_eq!(ids, vec![0, 1, 2]);
    assert_eq!(triples(&g), vec![(0, 0, 1), (1, 1, 2)]);
    let labels: Vec<String> = g.vertices().iter().map(|v| v.label.clone()).collect();
    assert_eq!(labels, vec!["0", "1", "2"]);
}

#[test]
fn complete_preset_joins_every_pair() {
    let (n, adj) = generated("complete", 6).build_adj();
    assert_eq!(n, 6);
    for i in 0..6 {
        for j in 0..6 {
            assert_eq!(adj[i][j], i != j);
        }
    }
}

#[test]
fn grid_preset_joins_side_by_side_cells() {
    let k = 4;
    let (n, adj) = generated("grid", k as u32).build_adj();
    assert_eq!(n, k * k);
    for a in 0..k * k {
        for b in 0..k * k {
            let expected = (b == a + 1 && a % k + 1 < k)
                || (a == b + 1 && b % k + 1 < k)
                || b == a + k
                || a == b + k;
            assert_eq!(adj[a][b], expected, "cells {} and {}", a, b);
        }
    }
}

#[test]
fn wheel_and_petersen_adjacency() {
    let k = 5;
    let (_, adj) = generated("wheel", k as u32).build_adj();
    for i in 0..=k {
        for j in 0..=k {
            let expected = ((i == 0) != (j == 0))
                || (i >= 1 && j >= 1 && (j - 1 == i % k || i - 1 == j % k));
            assert_eq!(adj[i][j], expected);
        }
    }
    let (_, adj) = generated("petersen", 3).build_adj();
    for i in 0..10usize {
        for j in 0..10usize {
            let expected = (i < 5 && j < 5 && (j == (i + 1) % 5 || i == (j + 1) % 5))
                || (i >= 5 && j >= 5 && (j - 5 == (i - 5 + 2) % 5 || i - 5 == (j - 5 + 2) % 5))
                || j == i + 5
                || i == j + 5;
            assert_eq!(adj[i][j], expected);
        }
    }
}

#[test]
fn preset_fits_at_the_u32_boundary() {
    assert!(preset_fits("grid", 46341));
    assert!(!preset_fits("grid", 46342));
    assert!(!preset_fits("grid", 65536));
    assert!(preset_fits("complete", 92682));
    assert!(!preset_fits("complete", 92683));
    assert!(!preset_fits("star", u32::MAX));
    assert!(preset_fits("star", u32::MAX - 1));
    assert!(preset_fits("petersen", u32::MAX));
    assert!(preset_fits("no such preset", u32::MAX));
    assert!(preset_fits("cycle", 0));
}
