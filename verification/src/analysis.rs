//! The analysis report of a graph: counts, connectivity, degrees,
//! bipartiteness, Eulerian trails, diameter, colouring, and the exact
//! independent set, vertex cover and clique sizes of small graphs.
use vstd::prelude::*;
use crate::coloring::{
    greedy_chromatic, greedy_color_count, greedy_colors, is_proper_coloring,
    lemma_greedy_coloring_is_proper, lemma_greedy_count_bounds,
};
use crate::degrees::{
    at_least, count_odd, count_true, degree_list, degree_range, degree_sum, degrees, is_largest,
    is_smallest, lemma_count_true_bound, odd_count, sort_descending, sum_of,
};
use crate::exact::{
    all_vertices, is_clique_number, is_independence_number, is_vertex_cover_number,
    lemma_all_vertices_len, lemma_bipartite_clique_two, lemma_clique_at_most_colors,
    lemma_cover_complements_independent, max_clique, mis,
};
use crate::graph::{adjacency, edge_joins, joined, Graph, GraphModel};
use crate::search::{
    are_edges_connected, connected_components, diameter_of_connected, edges_connected, is_bipartite,
};
use crate::walks::{
    all_connected, component_count, is_bipartite_matrix, is_diameter, is_loopless, is_simple_graph,
    is_square, is_symmetric, lemma_one_component_iff_connected,
};

verus! {

/// The largest number of vertices for which the exact (exponential-time)
/// independent set, vertex cover and clique searches are run.
pub const EXACT_ALGO_LIMIT: usize = 25;

/// What `analyze` reports. Density and average degree are the ratios
/// `edge_count / max_edges` and `degree_sum / vertex_count`.
pub struct Analysis {
    pub vertex_count: usize,
    pub edge_count: usize,
    /// The number of edges of the complete graph on these vertices.
    pub max_edges: u64,
    pub is_connected: bool,
    pub connected_components: usize,
    pub min_degree: u32,
    pub max_degree: u32,
    /// The sum of all degrees.
    pub degree_sum: u64,
    /// The degrees, largest first.
    pub degree_sequence: Vec<u32>,
    pub is_bipartite: bool,
    /// The vertices that have an edge all reach each other (isolated
    /// vertices are ignored), every degree is even, and there is an edge.
    pub has_eulerian_circuit: bool,
    /// The vertices that have an edge all reach each other, and exactly two
    /// degrees are odd.
    pub has_eulerian_path: bool,
    /// `-1` for a disconnected graph.
    pub diameter: i64,
    pub chromatic_number_greedy: u32,
    pub max_independent_set: u32,
    pub min_vertex_cover: u32,
    pub max_clique: u32,
    /// Whether the graph was small enough for the exact searches.
    pub exact_computed: bool,
}

/// The adjacency matrix of a well-formed graph is that of a simple graph.
pub proof fn lemma_adjacency_simple(g: GraphModel)
    requires
        g.wf(),
    ensures
        is_simple_graph(adjacency(g)),
        adjacency(g).len() == g.vertex_ids.len(),
        g.vertex_ids.len() <= u32::MAX,
{
    let m = adjacency(g);
    let ids = g.vertex_ids;
    assert forall|i: int, j: int| 0 <= i < m.len() && 0 <= j < m.len() implies #[trigger] m[i][j]
        == m[j][i] by {
        if joined(g.edges, ids[i], ids[j]) {
            let k = choose|k: int|
                0 <= k < g.edges.len() && #[trigger] edge_joins(g.edges[k], ids[i], ids[j]);
            assert(edge_joins(g.edges[k], ids[j], ids[i]));
        }
        if joined(g.edges, ids[j], ids[i]) {
            let k = choose|k: int|
                0 <= k < g.edges.len() && #[trigger] edge_joins(g.edges[k], ids[j], ids[i]);
            assert(edge_joins(g.edges[k], ids[i], ids[j]));
        }
    }
    assert forall|i: int| 0 <= i < m.len() implies !#[trigger] m[i][i] by {
        if joined(g.edges, ids[i], ids[i]) {
            let k = choose|k: int|
                0 <= k < g.edges.len() && #[trigger] edge_joins(g.edges[k], ids[i], ids[i]);
            let e = g.edges[k];
            assert(e.1 != e.2);
        }
    }
}

/// What the report says of the model `g`, field by field.
pub open spec fn describes(g: GraphModel, r: Analysis) -> bool {
    let n = g.vertex_ids.len();
    let m = adjacency(g);
    let degs = degree_list(m);
    if n == 0 {
        &&& r.vertex_count == 0
        &&& r.edge_count == 0
        &&& r.max_edges == 0
        &&& r.is_connected
        &&& r.connected_components == 0
        &&& r.min_degree == 0
        &&& r.max_degree == 0
        &&& r.degree_sum == 0
        &&& r.degree_sequence@ == Seq::<u32>::empty()
        &&& r.is_bipartite
        &&& !r.has_eulerian_circuit
        &&& !r.has_eulerian_path
        &&& r.diameter == 0
        &&& r.chromatic_number_greedy == 0
        &&& r.max_independent_set == 0
        &&& r.min_vertex_cover == 0
        &&& r.max_clique == 0
        &&& r.exact_computed
    } else {
        &&& r.vertex_count == n
        &&& r.edge_count == g.edges.len()
        &&& r.max_edges == n * (n - 1) / 2
        &&& r.connected_components == component_count(m)
        &&& r.is_connected == (component_count(m) == 1)
        &&& is_smallest(degs, r.min_degree)
        &&& is_largest(degs, r.max_degree)
        &&& r.degree_sum == sum_of(degs)
        &&& r.degree_sequence@ == degs.sort_by(at_least())
        &&& r.is_bipartite == is_bipartite_matrix(m)
        &&& r.has_eulerian_circuit == (edges_connected(m) && odd_count(degs) == 0 && g.edges.len()
            > 0)
        &&& r.has_eulerian_path == (edges_connected(m) && odd_count(degs) == 2)
        &&& (!r.is_connected ==> r.diameter == -1)
        &&& (r.is_connected ==> r.diameter >= 0 && is_diameter(m, r.diameter as int))
        &&& r.chromatic_number_greedy == greedy_color_count(m)
        &&& r.exact_computed == (n <= EXACT_ALGO_LIMIT)
        &&& (r.exact_computed ==> {
            &&& is_independence_number(m, all_vertices(n), r.max_independent_set as nat)
            &&& r.min_vertex_cover == n - r.max_independent_set
            &&& is_clique_number(m, all_vertices(n), r.max_clique as nat)
        })
        &&& (!r.exact_computed ==> {
            &&& r.max_independent_set == 0
            &&& r.min_vertex_cover == n
            &&& r.max_clique == 0
        })
    }
}

/// The candidate list `0, 1, .., n - 1`.
fn all_indices(n: usize) -> (v: Vec<usize>)
    ensures
        v@.len() == n,
        v@.no_duplicates(),
        forall|i: int| 0 <= i < n ==> #[trigger] v@[i] == i,
        v@.to_set() == all_vertices(n as nat),
{
    let mut v: Vec<usize> = Vec::new();
    let mut i: usize = 0;
    while i < n
        invariant
            i <= n,
            v@.len() == i,
            forall|k: int| 0 <= k < i ==> #[trigger] v@[k] == k,
        decreases n - i,
    {
        v.push(i);
        i = i + 1;
    }
    assert forall|x: usize| v@.to_set().contains(x) <==> all_vertices(n as nat).contains(x) by {
        if x < n {
            assert(v@[x as int] == x);
        }
    }
    assert(v@.to_set() =~= all_vertices(n as nat));
    v
}

impl Graph {
    /// Runs every analysis on the graph.
    pub fn analyze(&self) -> (r: Analysis)
        requires
            self.wf(),
        ensures
            describes(self@, r),
            // what follows from the report, stated for its readers
            r.is_connected <==> all_connected(adjacency(self@)),
            r.degree_sum == 2 * r.edge_count,
            r.exact_computed ==> is_vertex_cover_number(
                adjacency(self@),
                r.min_vertex_cover as nat,
            ),
            is_proper_coloring(
                adjacency(self@),
                greedy_colors(adjacency(self@), self@.vertex_ids.len() as int),
                r.chromatic_number_greedy as nat,
            ),
            r.vertex_count > 0 ==> 1 <= r.chromatic_number_greedy,
            r.chromatic_number_greedy <= r.max_degree + 1,
            r.exact_computed ==> r.max_clique <= r.chromatic_number_greedy,
            r.exact_computed && r.is_bipartite && r.edge_count > 0 ==> r.max_clique == 2,
    {
        let ghost g = self@;
        let ghost m = adjacency(g);
        proof {
            lemma_adjacency_simple(g);
            lemma_greedy_coloring_is_proper(m);
            crate::laws::lemma_handshake(g);
        }
        let (n, adj) = self.build_adj();
        assert(adj.deep_view() =~= m);
        let edge_count = self.edges().len();
        if n == 0 {
            proof {
                assert(greedy_colors(m, 0) =~= Seq::<nat>::empty());
                let e = Set::<usize>::empty();
                assert(e.subset_of(all_vertices(0)) && crate::exact::is_vertex_cover(m, e));
            }
            return Analysis {
                vertex_count: 0,
                edge_count: 0,
                max_edges: 0,
                is_connected: true,
                connected_components: 0,
                min_degree: 0,
                max_degree: 0,
                degree_sum: 0,
                degree_sequence: Vec::new(),
                is_bipartite: true,
                has_eulerian_circuit: false,
                has_eulerian_path: false,
                diameter: 0,
                chromatic_number_greedy: 0,
                max_independent_set: 0,
                min_vertex_cover: 0,
                max_clique: 0,
                exact_computed: true,
            };
        }
        // Degrees
        let degs = degrees(&adj);
        let sum = degree_sum(&degs);
        let odd_degrees = count_odd(&degs);
        let (min_degree, max_degree) = degree_range(&degs);
        let edges_joined = are_edges_connected(&adj, &degs);
        let degree_sequence = sort_descending(degs);
        // Connectivity
        let components = connected_components(&adj);
        let is_connected = components == 1;
        proof {
            lemma_one_component_iff_connected(m);
        }
        // Density's denominator
        let nn = n as u64;
        assert(nn * (nn - 1) <= 0xffff_ffff * 0xffff_ffffu64) by (nonlinear_arith)
            requires
                1 <= nn <= 0xffff_ffff,
        ;
        let max_edges = nn * (nn - 1) / 2;
        // Bipartite
        let bipartite = is_bipartite(&adj);
        // Eulerian (requires connectivity, ignores isolated vertices)
        let has_eulerian_circuit = edges_joined && odd_degrees == 0 && edge_count > 0;
        let has_eulerian_path = edges_joined && odd_degrees == 2;
        // Diameter
        let diameter = if !is_connected {
            -1
        } else {
            diameter_of_connected(&adj)
        };
        // Greedy chromatic number
        let chromatic = greedy_chromatic(&adj);
        // Exact searches, for small graphs only
        let exact_computed = n <= EXACT_ALGO_LIMIT;
        let all = all_indices(n);
        let mis_size = if exact_computed {
            mis(&adj, all.as_slice(), 0)
        } else {
            0
        };
        let clique_size = if exact_computed {
            max_clique(&adj, all.as_slice(), 0)
        } else {
            0
        };
        proof {
            if exact_computed {
                lemma_cover_complements_independent(m, mis_size as nat);
            }
            assert forall|u: int| 0 <= u < m.len() implies #[trigger] count_true(m[u])
                <= max_degree by {
                lemma_count_true_bound(m[u]);
                assert(degree_list(m)[u] <= max_degree);
            }
            lemma_greedy_count_bounds(m, max_degree as nat);
            if exact_computed {
                lemma_clique_at_most_colors(
                    m,
                    greedy_colors(m, n as int),
                    greedy_color_count(m),
                    all_vertices(n as nat),
                    clique_size as nat,
                );
                if bipartite && edge_count > 0 {
                    let e = g.edges[0];
                    let ids = g.vertex_ids;
                    let a = choose|a: int| 0 <= a < ids.len() && ids[a] == e.1;
                    let b = choose|b: int| 0 <= b < ids.len() && ids[b] == e.2;
                    assert(edge_joins(g.edges[0], ids[a], ids[b]));
                    assert(m[a][b]);
                    lemma_bipartite_clique_two(m, clique_size as nat);
                }
            }
        }
        Analysis {
            vertex_count: n,
            edge_count,
            max_edges,
            is_connected,
            connected_components: components,
            min_degree,
            max_degree,
            degree_sum: sum,
            degree_sequence,
            is_bipartite: bipartite,
            has_eulerian_circuit,
            has_eulerian_path,
            diameter,
            chromatic_number_greedy: chromatic,
            max_independent_set: mis_size,
            min_vertex_cover: n as u32 - mis_size,
            max_clique: clique_size,
            exact_computed,
        }
    }
}

} // verus!
