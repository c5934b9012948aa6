use wasmtea::coloring::greedy_chromatic;
use wasmtea::degrees::{count_odd, degree_range, degree_sum, degrees, sort_descending};
use wasmtea::exact::{max_clique, mis};
use wasmtea::search::{bfs_distances, connected_components, diameter_of_connected, is_bipartite};

fn matrix(n: usize, edges: &[(usize, usize)]) -> Vec<Vec<bool>> {
    let mut m = vec![vec![false; n]; n];
    for &(a, b) in edges {
        m[a][b] = true;
        m[b][a] = true;
    }
    m
}

fn all(n: usize) -> Vec<usize> {
    (0..n).collect()
}

#[test]
fn bfs_on_path_gives_hop_counts() {
    let adj = matrix(4, &[(0, 1), (1, 2), (2, 3)]);
    assert_eq!(bfs_distances(0, &adj), vec![0, 1, 2, 3]);
    assert_eq!(bfs_distances(2, &adj), vec![2, 1, 0, 1]);
}

#[test]
fn bfs_marks_unreachable_with_minus_one() {
    let adj = matrix(5, &[(0, 1), (2, 3)]);
    assert_eq!(bfs_distances(0, &adj), vec![0, 1, -1, -1, -1]);
    assert_eq!(bfs_distances(4, &adj), vec![-1, -1, -1, -1, 0]);
}

#[test]
fn bfs_takes_shortest_route() {
    // a 6-cycle: the far side is 3 away, not 5
    let adj = matrix(6, &[(0, 1), (1, 2), (2, 3), (3, 4), (4, 5), (5, 0)]);
    assert_eq!(bfs_distances(0, &adj), vec![0, 1, 2, 3, 2, 1]);
}

#[test]
fn components_are_counted() {
    assert_eq!(connected_components(&matrix(0, &[])), 0);
    assert_eq!(connected_components(&matrix(1, &[])), 1);
    assert_eq!(connected_components(&matrix(5, &[(0, 1), (2, 3)])), 3);
    assert_eq!(connected_components(&matrix(4, &[(0, 3), (3, 1), (1, 2)])), 1);
}

#[test]
fn bipartite_recognises_even_and_odd_cycles() {
    let square = matrix(4, &[(0, 1), (1, 2), (2, 3), (3, 0)]);
    let triangle = matrix(3, &[(0, 1), (1, 2), (2, 0)]);
    assert!(is_bipartite(&square));
    assert!(!is_bipartite(&triangle));
    assert!(is_bipartite(&matrix(0, &[])));
    // an odd cycle in a second component still spoils it
    let mixed = matrix(5, &[(0, 1), (2, 3), (3, 4), (4, 2)]);
    assert!(!is_bipartite(&mixed));
}

#[test]
fn diameter_of_path_and_cycle() {
    assert_eq!(diameter_of_connected(&matrix(1, &[])), 0);
    assert_eq!(diameter_of_connected(&matrix(4, &[(0, 1), (1, 2), (2, 3)])), 3);
    let c5 = matrix(5, &[(0, 1), (1, 2), (2, 3), (3, 4), (4, 0)]);
    assert_eq!(diameter_of_connected(&c5), 2);
}

#[test]
fn greedy_colouring_counts() {
    assert_eq!(greedy_chromatic(&matrix(0, &[])), 0);
    assert_eq!(greedy_chromatic(&matrix(3, &[])), 1);
    assert_eq!(greedy_chromatic(&matrix(3, &[(0, 1), (1, 2), (2, 0)])), 3);
    assert_eq!(greedy_chromatic(&matrix(4, &[(0, 1), (1, 2), (2, 3), (3, 0)])), 2);
    // the path 0-2-3-1 is two-colourable, but index order gives 0 and 1
    // the same colour, and then 2 and 3 need two more
    assert_eq!(greedy_chromatic(&matrix(4, &[(0, 2), (1, 3), (2, 3)])), 3);
    let adj = matrix(4, &[(0, 1), (2, 3), (0, 3), (1, 2)]);
    assert_eq!(greedy_chromatic(&adj), 2);
    let crown = matrix(6, &[(0, 3), (0, 5), (1, 2), (1, 4), (2, 5), (3, 4)]);
    assert_eq!(greedy_chromatic(&crown), 3);
}

#[test]
fn independent_set_sizes() {
    assert_eq!(mis(&matrix(0, &[]), &[], 0), 0);
    assert_eq!(mis(&matrix(3, &[]), &all(3), 0), 3);
    let k4 = matrix(4, &[(0, 1), (0, 2), (0, 3), (1, 2), (1, 3), (2, 3)]);
    assert_eq!(mis(&k4, &all(4), 0), 1);
    let c5 = matrix(5, &[(0, 1), (1, 2), (2, 3), (3, 4), (4, 0)]);
    assert_eq!(mis(&c5, &all(5), 0), 2);
    // size is added on top
    assert_eq!(mis(&c5, &all(5), 3), 5);
    // only candidates count
    assert_eq!(mis(&matrix(4, &[]), &[1, 3], 0), 2);
}

#[test]
fn clique_sizes() {
    assert_eq!(max_clique(&matrix(0, &[]), &[], 0), 0);
    assert_eq!(max_clique(&matrix(3, &[]), &all(3), 0), 1);
    let k4 = matrix(4, &[(0, 1), (0, 2), (0, 3), (1, 2), (1, 3), (2, 3)]);
    assert_eq!(max_clique(&k4, &all(4), 0), 4);
    let c5 = matrix(5, &[(0, 1), (1, 2), (2, 3), (3, 4), (4, 0)]);
    assert_eq!(max_clique(&c5, &all(5), 0), 2);
    let triangle_and_tail = matrix(5, &[(0, 1), (1, 2), (2, 0), (2, 3), (3, 4)]);
    assert_eq!(max_clique(&triangle_and_tail, &all(5), 0), 3);
    assert_eq!(max_clique(&k4, &[0, 1], 2), 4);
}

#[test]
fn degree_helpers() {
    let adj = matrix(4, &[(0, 1), (0, 2), (0, 3), (1, 2)]);
    let degs = degrees(&adj);
    assert_eq!(degs, vec![3, 2, 2, 1]);
    assert_eq!(degree_sum(&degs), 8);
    assert_eq!(count_odd(&degs), 2);
    assert_eq!(degree_range(&degs), (1, 3));
    assert_eq!(sort_descending(vec![1, 3, 2, 3, 0]), vec![3, 3, 2, 1, 0]);
    assert_eq!(sort_descending(vec![]), Vec::<u32>::new());
}
