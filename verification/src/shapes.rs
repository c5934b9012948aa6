//! What the preset graphs are: the edges of a preset join exactly the pairs
//! its edge list asks for, and the complete and cycle presets are the
//! complete graph and the cycle.
use vstd::prelude::*;
use crate::graph::{adjacency, edge_joins, joined, GraphModel};
use crate::presets::{
    apply_requests, bipartite_pairs, complete_pairs, edge_requests, generated, grid_cell_pairs,
    grid_pairs, preset_graph, preset_named, vertex_total, with_vertices, Preset,
};

verus! {

broadcast use vstd::seq_lib::group_seq_properties;

/// The request `r` is for the pair `a`, `b`, in either direction.
pub open spec fn pair_joins(r: (u32, u32), a: u32, b: u32) -> bool {
    (r.0 == a && r.1 == b) || (r.0 == b && r.1 == a)
}

/// Some request of `reqs` is for the pair `a`, `b`.
pub open spec fn asks_for(reqs: Seq<(u32, u32)>, a: u32, b: u32) -> bool {
    exists|t: int| 0 <= t < reqs.len() && #[trigger] pair_joins(reqs[t], a, b)
}

/// Every request is for two distinct vertices of `g`.
pub open spec fn requests_within(g: GraphModel, reqs: Seq<(u32, u32)>) -> bool {
    forall|t: int|
        0 <= t < reqs.len() ==> {
            let r = #[trigger] reqs[t];
            &&& r.0 != r.1
            &&& g.has_vertex(r.0)
            &&& g.has_vertex(r.1)
        }
}

/// Starting without edges, asking for pairs of distinct existing vertices
/// leaves the vertices alone and joins exactly the pairs asked for: a
/// request that `add_edge` refuses repeats one already joined.
proof fn lemma_apply_joins_requests(g: GraphModel, reqs: Seq<(u32, u32)>)
    requires
        g.edges.len() == 0,
        requests_within(g, reqs),
    ensures
        apply_requests(g, reqs).vertex_ids == g.vertex_ids,
        forall|a: u32, b: u32|
            #[trigger] joined(apply_requests(g, reqs).edges, a, b) <==> asks_for(reqs, a, b),
    decreases reqs.len(),
{
    if reqs.len() == 0 {
        assert forall|a: u32, b: u32| !#[trigger] joined(apply_requests(g, reqs).edges, a, b) by {}
    } else {
        let init = reqs.drop_last();
        let last = reqs.last();
        assert(requests_within(g, init)) by {
            assert forall|t: int| 0 <= t < init.len() implies {
                let r = #[trigger] init[t];
                &&& r.0 != r.1
                &&& g.has_vertex(r.0)
                &&& g.has_vertex(r.1)
            } by {
                assert(init[t] == reqs[t]);
            }
        }
        lemma_apply_joins_requests(g, init);
        let h = apply_requests(g, init);
        let res = apply_requests(g, reqs);
        assert(res == h.add_edge(last.0, last.1));
        assert(reqs[reqs.len() - 1] == last);
        if h.accepts_edge(last.0, last.1) {
            let e = (h.next_edge_id as u32, last.0, last.1);
            assert(res.edges == h.edges.push(e));
            assert forall|a: u32, b: u32| #[trigger] joined(res.edges, a, b) <==> asks_for(reqs, a, b) by {
                if joined(res.edges, a, b) {
                    let q = choose|q: int| 0 <= q < res.edges.len() && #[trigger] edge_joins(res.edges[q], a, b);
                    if q < h.edges.len() {
                        assert(edge_joins(h.edges[q], a, b));
                        assert(joined(h.edges, a, b));
                        assert(asks_for(init, a, b));
                        let t = choose|t: int| 0 <= t < init.len() && #[trigger] pair_joins(init[t], a, b);
                        assert(pair_joins(reqs[t], a, b));
                    } else {
                        assert(pair_joins(reqs[reqs.len() - 1], a, b));
                    }
                }
                if asks_for(reqs, a, b) {
                    let t = choose|t: int| 0 <= t < reqs.len() && #[trigger] pair_joins(reqs[t], a, b);
                    if t < init.len() {
                        assert(pair_joins(init[t], a, b));
                        assert(joined(h.edges, a, b));
                        let q = choose|q: int| 0 <= q < h.edges.len() && #[trigger] edge_joins(h.edges[q], a, b);
                        assert(edge_joins(res.edges[q], a, b));
                    } else {
                        assert(edge_joins(res.edges[h.edges.len() as int], a, b));
                    }
                }
            }
        } else {
            // refused: the pair is distinct and its ends exist, so it is joined already
            assert(g.has_vertex(last.0) && g.has_vertex(last.1));
            assert(joined(h.edges, last.0, last.1));
            assert forall|a: u32, b: u32| #[trigger] joined(res.edges, a, b) <==> asks_for(reqs, a, b) by {
                if joined(res.edges, a, b) {
                    assert(asks_for(init, a, b));
                    let t = choose|t: int| 0 <= t < init.len() && #[trigger] pair_joins(init[t], a, b);
                    assert(pair_joins(reqs[t], a, b));
                }
                if asks_for(reqs, a, b) {
                    let t = choose|t: int| 0 <= t < reqs.len() && #[trigger] pair_joins(reqs[t], a, b);
                    if t < init.len() {
                        assert(pair_joins(init[t], a, b));
                    } else {
                        assert(pair_joins(last, a, b));
                        let q = choose|q: int| 0 <= q < h.edges.len() && #[trigger] edge_joins(h.edges[q], last.0, last.1);
                        assert(edge_joins(h.edges[q], a, b));
                    }
                }
            }
        }
    }
}

/// Every request is for two distinct vertices below `n`.
pub open spec fn pairs_below(reqs: Seq<(u32, u32)>, n: int) -> bool {
    forall|t: int|
        0 <= t < reqs.len() ==> {
            let r = #[trigger] reqs[t];
            &&& r.0 != r.1
            &&& r.0 < n
            &&& r.1 < n
        }
}

proof fn lemma_pairs_below_within(reqs: Seq<(u32, u32)>, n: nat)
    requires
        pairs_below(reqs, n as int),
        n <= u32::MAX + 1,
    ensures
        requests_within(with_vertices(n), reqs),
{
    let ids = with_vertices(n).vertex_ids;
    assert forall|t: int| 0 <= t < reqs.len() implies {
        let r = #[trigger] reqs[t];
        &&& r.0 != r.1
        &&& with_vertices(n).has_vertex(r.0)
        &&& with_vertices(n).has_vertex(r.1)
    } by {
        let r = reqs[t];
        assert(ids[r.0 as int] == r.0);
        assert(ids[r.1 as int] == r.1);
    }
}

proof fn lemma_concat_below(a: Seq<(u32, u32)>, b: Seq<(u32, u32)>, n: int)
    requires
        pairs_below(a, n),
        pairs_below(b, n),
    ensures
        pairs_below(a + b, n),
{
    assert forall|t: int| 0 <= t < (a + b).len() implies {
        let r = #[trigger] (a + b)[t];
        &&& r.0 != r.1
        &&& r.0 < n
        &&& r.1 < n
    } by {
        if t < a.len() {
            assert((a + b)[t] == a[t]);
        } else {
            assert((a + b)[t] == b[t - a.len()]);
        }
    }
}

proof fn lemma_complete_pairs_below(k: int, r: int)
    requires
        0 <= r <= k <= u32::MAX,
    ensures
        pairs_below(complete_pairs(k, r), k),
    decreases r,
{
    if r > 0 {
        lemma_complete_pairs_below(k, r - 1);
        let row = Seq::new((k - r) as nat, |t: int| ((r - 1) as u32, (r + t) as u32));
        lemma_concat_below(complete_pairs(k, r - 1), row, k);
    }
}

proof fn lemma_bipartite_pairs_below(k: int, r: int)
    requires
        0 <= r <= k,
        2 * k <= u32::MAX,
    ensures
        pairs_below(bipartite_pairs(k, r), 2 * k),
    decreases r,
{
    if r > 0 {
        lemma_bipartite_pairs_below(k, r - 1);
        let row = Seq::new(k as nat, |j: int| ((r - 1) as u32, (k + j) as u32));
        lemma_concat_below(bipartite_pairs(k, r - 1), row, 2 * k);
    }
}

proof fn lemma_grid_pairs_below(k: int, t: int)
    requires
        k >= 1,
        0 <= t <= k * k,
        k * k <= u32::MAX,
    ensures
        pairs_below(grid_pairs(k, t), k * k),
    decreases t,
{
    if t > 0 {
        lemma_grid_pairs_below(k, t - 1);
        let idx = t - 1;
        assert(idx + k < k * k <== idx / k + 1 < k) by (nonlinear_arith)
            requires
                k >= 1,
                0 <= idx,
        {
            if idx / k + 1 < k {
                assert(idx == k * (idx / k) + idx % k);
                assert(idx % k < k);
                assert(k * (idx / k + 1) <= k * (k - 1));
            }
        }
        assert(idx + 1 < k * k <== idx % k + 1 < k) by (nonlinear_arith)
            requires
                k >= 1,
                0 <= idx < k * k,
        {
            if idx % k + 1 < k {
                assert(idx == k * (idx / k) + idx % k);
                assert(idx / k < k) by {
                    if idx / k >= k {
                        assert(k * (idx / k) >= k * k);
                    }
                }
                assert(k * (idx / k) <= k * (k - 1));
            }
        }
        let cell = grid_cell_pairs(k, idx);
        assert(pairs_below(cell, k * k));
        lemma_concat_below(grid_pairs(k, t - 1), cell, k * k);
    }
}

/// The successor of `t` around a cycle of `k` is `t + 1`, or `0` after the
/// last; never `t` itself.
proof fn lemma_successor_mod(t: int, k: int)
    requires
        0 <= t < k,
        k >= 2,
    ensures
        (t + 1) % k == (if t + 1 < k { t + 1 } else { 0 }),
        (t + 1) % k != t,
{
    if t + 1 < k {
        vstd::arithmetic::div_mod::lemma_small_mod((t + 1) as nat, k as nat);
    } else {
        vstd::arithmetic::div_mod::lemma_mod_self_0(k);
    }
}

/// Every pair a preset asks for joins two distinct vertices of the preset.
proof fn lemma_preset_requests_below(p: Preset, k: int)
    requires
        k >= 2,
        vertex_total(p, k) <= u32::MAX,
    ensures
        pairs_below(edge_requests(p, k), vertex_total(p, k)),
{
    let reqs = edge_requests(p, k);
    let n = vertex_total(p, k);
    match p {
        Preset::Complete => {
            lemma_complete_pairs_below(k, k);
        },
        Preset::Bipartite => {
            lemma_bipartite_pairs_below(k, k);
        },
        Preset::Grid => {
            assert(k <= k * k) by (nonlinear_arith)
                requires
                    k >= 2,
            ;
            lemma_grid_pairs_below(k, k * k);
        },
        Preset::Wheel => {
            let spokes = Seq::new(k as nat, |i: int| (0u32, (i + 1) as u32));
            let rim = Seq::new(k as nat, |i: int| ((i + 1) as u32, ((i + 1) % k + 1) as u32));
            assert(pairs_below(spokes, n));
            assert forall|t: int| 0 <= t < rim.len() implies {
                let r = #[trigger] rim[t];
                &&& r.0 != r.1
                &&& r.0 < n
                &&& r.1 < n
            } by {
                lemma_successor_mod(t, k);
            }
            lemma_concat_below(spokes, rim, n);
        },
        Preset::Petersen => {
            let outer = Seq::new(5, |i: int| (i as u32, ((i + 1) % 5) as u32));
            let inner = Seq::new(5, |i: int| ((5 + i) as u32, (5 + (i + 2) % 5) as u32));
            let spokes = Seq::new(5, |i: int| (i as u32, (5 + i) as u32));
            assert(pairs_below(outer, 10));
            assert(pairs_below(inner, 10));
            assert(pairs_below(spokes, 10));
            lemma_concat_below(outer, inner, 10);
            lemma_concat_below(outer + inner, spokes, 10);
        },
        Preset::Cycle => {
            assert forall|t: int| 0 <= t < reqs.len() implies {
                let r = #[trigger] reqs[t];
                &&& r.0 != r.1
                &&& r.0 < n
                &&& r.1 < n
            } by {
                lemma_successor_mod(t, k);
            }
        },
        Preset::Path => {},
        Preset::Star => {},
    }
}

/// The edges of a preset join exactly the pairs its edge list asks for: two
/// vertices of the preset graph are adjacent if and only if some request
/// names them, in either order; its vertices are `0, 1, ..` up to its vertex
/// total.
pub proof fn lemma_preset_edges(p: Preset, k: int)
    requires
        k >= 2,
        vertex_total(p, k) <= u32::MAX,
    ensures
        preset_graph(p, k).vertex_ids == Seq::new(vertex_total(p, k) as nat, |i: int| i as u32),
        forall|a: u32, b: u32|
            #[trigger] joined(preset_graph(p, k).edges, a, b) <==> asks_for(edge_requests(p, k), a, b),
        pairs_below(edge_requests(p, k), vertex_total(p, k)),
{
    let n = vertex_total(p, k) as nat;
    let reqs = edge_requests(p, k);
    lemma_preset_requests_below(p, k);
    lemma_pairs_below_within(reqs, n);
    lemma_apply_joins_requests(with_vertices(n), reqs);
}

/// The pair `(i, j)`, `i < j < k`, is among the first `r > i` rows of the
/// complete preset's requests.
proof fn lemma_complete_pairs_has(k: int, r: int, i: int, j: int)
    requires
        0 <= i < r <= k <= u32::MAX,
        i < j < k,
    ensures
        asks_for(complete_pairs(k, r), i as u32, j as u32),
    decreases r,
{
    let prefix = complete_pairs(k, r - 1);
    let row = Seq::new((k - r) as nat, |t: int| ((r - 1) as u32, (r + t) as u32));
    let all = complete_pairs(k, r);
    assert(all == prefix + row);
    if i < r - 1 {
        lemma_complete_pairs_has(k, r - 1, i, j);
        let t = choose|t: int| 0 <= t < prefix.len() && #[trigger] pair_joins(prefix[t], i as u32, j as u32);
        assert(all[t] == prefix[t]);
        assert(pair_joins(all[t], i as u32, j as u32));
    } else {
        let t = prefix.len() + (j - r);
        assert(all[t] == row[j - r]);
        assert(pair_joins(all[t], i as u32, j as u32));
    }
}

/// The complete preset is the complete graph: any two distinct vertices are
/// adjacent, and no vertex is adjacent to itself.
pub proof fn lemma_complete_preset_is_complete(k: int)
    requires
        2 <= k <= u32::MAX,
    ensures
        adjacency(preset_graph(Preset::Complete, k)).len() == k,
        forall|i: int, j: int|
            0 <= i < k && 0 <= j < k ==> #[trigger] adjacency(preset_graph(Preset::Complete, k))[i][j]
                == (i != j),
{
    let g = preset_graph(Preset::Complete, k);
    let reqs = edge_requests(Preset::Complete, k);
    lemma_preset_edges(Preset::Complete, k);
    let m = adjacency(g);
    assert forall|i: int, j: int| 0 <= i < k && 0 <= j < k implies #[trigger] m[i][j] == (i != j) by {
        assert(g.vertex_ids[i] == i as u32 && g.vertex_ids[j] == j as u32);
        assert(m[i][j] == joined(g.edges, i as u32, j as u32));
        if i < j {
            lemma_complete_pairs_has(k, k, i, j);
        } else if j < i {
            lemma_complete_pairs_has(k, k, j, i);
            let t = choose|t: int| 0 <= t < reqs.len() && #[trigger] pair_joins(reqs[t], j as u32, i as u32);
            assert(pair_joins(reqs[t], i as u32, j as u32));
        } else if asks_for(reqs, i as u32, i as u32) {
            let t = choose|t: int| 0 <= t < reqs.len() && #[trigger] pair_joins(reqs[t], i as u32, i as u32);
            assert(reqs[t].0 != reqs[t].1);
        }
    }
}

/// The cycle preset of size `k` is the cycle `0 - 1 - .. - (k - 1) - 0`:
/// two vertices are adjacent exactly when one follows the other around it.
pub proof fn lemma_cycle_preset_is_cycle(k: int)
    requires
        2 <= k <= u32::MAX,
    ensures
        adjacency(preset_graph(Preset::Cycle, k)).len() == k,
        forall|i: int, j: int|
            0 <= i < k && 0 <= j < k ==> #[trigger] adjacency(preset_graph(Preset::Cycle, k))[i][j]
                == (j == (i + 1) % k || i == (j + 1) % k),
{
    let g = preset_graph(Preset::Cycle, k);
    let reqs = edge_requests(Preset::Cycle, k);
    lemma_preset_edges(Preset::Cycle, k);
    let m = adjacency(g);
    assert forall|i: int, j: int| 0 <= i < k && 0 <= j < k implies #[trigger] m[i][j] == (j == (i
        + 1) % k || i == (j + 1) % k) by {
        assert(g.vertex_ids[i] == i as u32 && g.vertex_ids[j] == j as u32);
        assert(m[i][j] == joined(g.edges, i as u32, j as u32));
        lemma_successor_mod(i, k);
        lemma_successor_mod(j, k);
        if j == (i + 1) % k {
            assert(pair_joins(reqs[i], i as u32, j as u32));
        } else if i == (j + 1) % k {
            assert(pair_joins(reqs[j], i as u32, j as u32));
        } else if asks_for(reqs, i as u32, j as u32) {
            let t = choose|t: int| 0 <= t < reqs.len() && #[trigger] pair_joins(reqs[t], i as u32, j as u32);
            lemma_successor_mod(t, k);
        }
    }
}

/// The path preset of size `k` is the path `0 - 1 - .. - (k - 1)`.
pub proof fn lemma_path_preset_is_path(k: int)
    requires
        2 <= k <= u32::MAX,
    ensures
        adjacency(preset_graph(Preset::Path, k)).len() == k,
        forall|i: int, j: int|
            0 <= i < k && 0 <= j < k ==> #[trigger] adjacency(preset_graph(Preset::Path, k))[i][j]
                == (j == i + 1 || i == j + 1),
{
    let g = preset_graph(Preset::Path, k);
    let reqs = edge_requests(Preset::Path, k);
    lemma_preset_edges(Preset::Path, k);
    let m = adjacency(g);
    assert forall|i: int, j: int| 0 <= i < k && 0 <= j < k implies #[trigger] m[i][j] == (j == i + 1
        || i == j + 1) by {
        assert(g.vertex_ids[i] == i as u32 && g.vertex_ids[j] == j as u32);
        assert(m[i][j] == joined(g.edges, i as u32, j as u32));
        if j == i + 1 {
            assert(pair_joins(reqs[i], i as u32, j as u32));
        } else if i == j + 1 {
            assert(pair_joins(reqs[j], i as u32, j as u32));
        } else if asks_for(reqs, i as u32, j as u32) {
            let t = choose|t: int| 0 <= t < reqs.len() && #[trigger] pair_joins(reqs[t], i as u32, j as u32);
        }
    }
}

/// The star preset of size `k` joins the centre `0` to each of the `k`
/// other vertices, and nothing else.
pub proof fn lemma_star_preset_is_star(k: int)
    requires
        2 <= k < u32::MAX,
    ensures
        adjacency(preset_graph(Preset::Star, k)).len() == k + 1,
        forall|i: int, j: int|
            0 <= i <= k && 0 <= j <= k ==> #[trigger] adjacency(preset_graph(Preset::Star, k))[i][j]
                == ((i == 0) != (j == 0)),
{
    let g = preset_graph(Preset::Star, k);
    let reqs = edge_requests(Preset::Star, k);
    lemma_preset_edges(Preset::Star, k);
    let m = adjacency(g);
    assert forall|i: int, j: int| 0 <= i <= k && 0 <= j <= k implies #[trigger] m[i][j] == ((i == 0)
        != (j == 0)) by {
        assert(g.vertex_ids[i] == i as u32 && g.vertex_ids[j] == j as u32);
        assert(m[i][j] == joined(g.edges, i as u32, j as u32));
        if i == 0 && j != 0 {
            assert(pair_joins(reqs[j - 1], i as u32, j as u32));
        } else if j == 0 && i != 0 {
            assert(pair_joins(reqs[i - 1], i as u32, j as u32));
        } else if asks_for(reqs, i as u32, j as u32) {
            let t = choose|t: int| 0 <= t < reqs.len() && #[trigger] pair_joins(reqs[t], i as u32, j as u32);
        }
    }
}

/// The wheel preset of size `k` joins the hub `0` to each rim vertex
/// `1 ..= k`, and the rim vertices in a cycle: `i` to `i + 1`, and `k` back
/// to `1`.
pub proof fn lemma_wheel_preset_is_wheel(k: int)
    requires
        2 <= k < u32::MAX,
    ensures
        adjacency(preset_graph(Preset::Wheel, k)).len() == k + 1,
        forall|i: int, j: int|
            0 <= i <= k && 0 <= j <= k ==> #[trigger] adjacency(preset_graph(Preset::Wheel, k))[i][j]
                == (((i == 0) != (j == 0)) || (i >= 1 && j >= 1 && (j - 1 == i % k || i - 1 == j % k))),
{
    let g = preset_graph(Preset::Wheel, k);
    let reqs = edge_requests(Preset::Wheel, k);
    let spokes = Seq::new(k as nat, |i: int| (0u32, (i + 1) as u32));
    let rim = Seq::new(k as nat, |i: int| ((i + 1) as u32, ((i + 1) % k + 1) as u32));
    assert(reqs == spokes + rim);
    lemma_preset_edges(Preset::Wheel, k);
    let m = adjacency(g);
    assert forall|i: int, j: int| 0 <= i <= k && 0 <= j <= k implies #[trigger] m[i][j] == (((i == 0)
        != (j == 0)) || (i >= 1 && j >= 1 && (j - 1 == i % k || i - 1 == j % k))) by {
        assert(g.vertex_ids[i] == i as u32 && g.vertex_ids[j] == j as u32);
        assert(m[i][j] == joined(g.edges, i as u32, j as u32));
        if i >= 1 {
            lemma_successor_mod(i - 1, k);
        }
        if j >= 1 {
            lemma_successor_mod(j - 1, k);
        }
        if i == 0 && j != 0 {
            assert(reqs[j - 1] == spokes[j - 1]);
            assert(pair_joins(reqs[j - 1], i as u32, j as u32));
        } else if j == 0 && i != 0 {
            assert(reqs[i - 1] == spokes[i - 1]);
            assert(pair_joins(reqs[i - 1], i as u32, j as u32));
        } else if i >= 1 && j >= 1 && j - 1 == i % k {
            assert(reqs[k + i - 1] == rim[i - 1]);
            assert(pair_joins(reqs[k + i - 1], i as u32, j as u32));
        } else if i >= 1 && j >= 1 && i - 1 == j % k {
            assert(reqs[k + j - 1] == rim[j - 1]);
            assert(pair_joins(reqs[k + j - 1], i as u32, j as u32));
        } else if asks_for(reqs, i as u32, j as u32) {
            let t = choose|t: int| 0 <= t < reqs.len() && #[trigger] pair_joins(reqs[t], i as u32, j as u32);
            if t < k {
                assert(reqs[t] == spokes[t]);
            } else {
                assert(reqs[t] == rim[t - k]);
                lemma_successor_mod(t - k, k);
            }
        }
    }
}

/// The pair `(i, k + j)`, `i < r`, `j < k`, is among the first `r` rows of
/// the bipartite preset's requests.
proof fn lemma_bipartite_pairs_has(k: int, r: int, i: int, j: int)
    requires
        0 <= i < r <= k,
        0 <= j < k,
        2 * k <= u32::MAX,
    ensures
        asks_for(bipartite_pairs(k, r), i as u32, (k + j) as u32),
    decreases r,
{
    let prefix = bipartite_pairs(k, r - 1);
    let row = Seq::new(k as nat, |t: int| ((r - 1) as u32, (k + t) as u32));
    let all = bipartite_pairs(k, r);
    assert(all == prefix + row);
    if i < r - 1 {
        lemma_bipartite_pairs_has(k, r - 1, i, j);
        let t = choose|t: int|
            0 <= t < prefix.len() && #[trigger] pair_joins(prefix[t], i as u32, (k + j) as u32);
        assert(all[t] == prefix[t]);
        assert(pair_joins(all[t], i as u32, (k + j) as u32));
    } else {
        let t = prefix.len() + j;
        assert(all[t] == row[j]);
        assert(pair_joins(all[t], i as u32, (k + j) as u32));
    }
}

/// Every pair the bipartite preset asks for has one end on each side.
proof fn lemma_bipartite_pairs_cross(k: int, r: int)
    requires
        0 <= r <= k,
        2 * k <= u32::MAX,
    ensures
        forall|t: int|
            0 <= t < bipartite_pairs(k, r).len() ==> #[trigger] bipartite_pairs(k, r)[t].0 < k
                <= bipartite_pairs(k, r)[t].1,
    decreases r,
{
    if r > 0 {
        lemma_bipartite_pairs_cross(k, r - 1);
        let prefix = bipartite_pairs(k, r - 1);
        let row = Seq::new(k as nat, |t: int| ((r - 1) as u32, (k + t) as u32));
        let all = bipartite_pairs(k, r);
        assert(all == prefix + row);
        assert forall|t: int| 0 <= t < all.len() implies #[trigger] all[t].0 < k <= all[t].1 by {
            if t < prefix.len() {
                assert(all[t] == prefix[t]);
            } else {
                assert(all[t] == row[t - prefix.len()]);
            }
        }
    }
}

/// The bipartite preset of size `k` is the complete bipartite graph between
/// the vertices `0 .. k` and `k .. 2k`.
pub proof fn lemma_bipartite_preset_is_complete_bipartite(k: int)
    requires
        2 <= k,
        2 * k <= u32::MAX,
    ensures
        adjacency(preset_graph(Preset::Bipartite, k)).len() == 2 * k,
        forall|i: int, j: int|
            0 <= i < 2 * k && 0 <= j < 2 * k ==> #[trigger] adjacency(
                preset_graph(Preset::Bipartite, k),
            )[i][j] == ((i < k) != (j < k)),
{
    let g = preset_graph(Preset::Bipartite, k);
    let reqs = edge_requests(Preset::Bipartite, k);
    lemma_preset_edges(Preset::Bipartite, k);
    lemma_bipartite_pairs_cross(k, k);
    let m = adjacency(g);
    assert forall|i: int, j: int| 0 <= i < 2 * k && 0 <= j < 2 * k implies #[trigger] m[i][j] == ((i
        < k) != (j < k)) by {
        assert(g.vertex_ids[i] == i as u32 && g.vertex_ids[j] == j as u32);
        assert(m[i][j] == joined(g.edges, i as u32, j as u32));
        if i < k && j >= k {
            lemma_bipartite_pairs_has(k, k, i, j - k);
        } else if j < k && i >= k {
            lemma_bipartite_pairs_has(k, k, j, i - k);
            let t = choose|t: int|
                0 <= t < reqs.len() && #[trigger] pair_joins(reqs[t], j as u32, i as u32);
            assert(pair_joins(reqs[t], i as u32, j as u32));
        } else if asks_for(reqs, i as u32, j as u32) {
            let t = choose|t: int| 0 <= t < reqs.len() && #[trigger] pair_joins(reqs[t], i as u32, j as u32);
            assert(reqs[t].0 < k <= reqs[t].1);
        }
    }
}

/// The Petersen preset: the outer 5-cycle `0 .. 5`, the inner pentagram on
/// `5 .. 10` (each inner vertex joined to the one two steps on), and the
/// spokes `i - (i + 5)`.
pub proof fn lemma_petersen_preset_is_petersen(k: int)
    requires
        k >= 2,
    ensures
        adjacency(preset_graph(Preset::Petersen, k)).len() == 10,
        forall|i: int, j: int|
            0 <= i < 10 && 0 <= j < 10 ==> #[trigger] adjacency(
                preset_graph(Preset::Petersen, k),
            )[i][j] == ({
                ||| i < 5 && j < 5 && (j == (i + 1) % 5 || i == (j + 1) % 5)
                ||| i >= 5 && j >= 5 && (j - 5 == (i - 5 + 2) % 5 || i - 5 == (j - 5 + 2) % 5)
                ||| j == i + 5
                ||| i == j + 5
            }),
{
    let g = preset_graph(Preset::Petersen, k);
    let reqs = edge_requests(Preset::Petersen, k);
    let outer = Seq::new(5, |i: int| (i as u32, ((i + 1) % 5) as u32));
    let inner = Seq::new(5, |i: int| ((5 + i) as u32, (5 + (i + 2) % 5) as u32));
    let spokes = Seq::new(5, |i: int| (i as u32, (5 + i) as u32));
    assert(reqs == outer + inner + spokes);
    lemma_preset_edges(Preset::Petersen, k);
    let m = adjacency(g);
    assert forall|i: int, j: int| 0 <= i < 10 && 0 <= j < 10 implies #[trigger] m[i][j] == ({
        ||| i < 5 && j < 5 && (j == (i + 1) % 5 || i == (j + 1) % 5)
        ||| i >= 5 && j >= 5 && (j - 5 == (i - 5 + 2) % 5 || i - 5 == (j - 5 + 2) % 5)
        ||| j == i + 5
        ||| i == j + 5
    }) by {
        assert(g.vertex_ids[i] == i as u32 && g.vertex_ids[j] == j as u32);
        assert(m[i][j] == joined(g.edges, i as u32, j as u32));
        if i < 5 && j < 5 && j == (i + 1) % 5 {
            assert(reqs[i] == outer[i]);
            assert(pair_joins(reqs[i], i as u32, j as u32));
        } else if i < 5 && j < 5 && i == (j + 1) % 5 {
            assert(reqs[j] == outer[j]);
            assert(pair_joins(reqs[j], i as u32, j as u32));
        } else if i >= 5 && j >= 5 && j - 5 == (i - 5 + 2) % 5 {
            assert(reqs[i] == inner[i - 5]);
            assert(pair_joins(reqs[i], i as u32, j as u32));
        } else if i >= 5 && j >= 5 && i - 5 == (j - 5 + 2) % 5 {
            assert(reqs[j] == inner[j - 5]);
            assert(pair_joins(reqs[j], i as u32, j as u32));
        } else if j == i + 5 {
            assert(reqs[10 + i] == spokes[i]);
            assert(pair_joins(reqs[10 + i], i as u32, j as u32));
        } else if i == j + 5 {
            assert(reqs[10 + j] == spokes[j]);
            assert(pair_joins(reqs[10 + j], i as u32, j as u32));
        } else if asks_for(reqs, i as u32, j as u32) {
            let t = choose|t: int| 0 <= t < reqs.len() && #[trigger] pair_joins(reqs[t], i as u32, j as u32);
            if t < 5 {
                assert(reqs[t] == outer[t]);
            } else if t < 10 {
                assert(reqs[t] == inner[t - 5]);
            } else {
                assert(reqs[t] == spokes[t - 10]);
            }
        }
    }
}

/// The grid request from cell `x` to cell `y`: to its right neighbour, or
/// to the one below, where they exist.
pub open spec fn grid_step(k: int, x: int, y: int) -> bool {
    ||| y == x + 1 && x % k + 1 < k
    ||| y == x + k && x / k + 1 < k
}

/// Below a `k` by `k` grid's last row is exactly where the cell `k` on
/// stays inside the grid.
proof fn lemma_next_row(k: int, x: int)
    requires
        k >= 1,
        0 <= x < k * k,
    ensures
        (x / k + 1 < k) == (x + k < k * k),
{
    vstd::arithmetic::div_mod::lemma_fundamental_div_mod(x, k);
    let q = x / k;
    let rem = x % k;
    assert(0 <= rem < k);
    assert((q + 1 < k) == (k * q + rem + k < k * k)) by (nonlinear_arith)
        requires
            k >= 1,
            0 <= rem < k,
            0 <= q,
    {
        if q + 1 < k {
            assert(k * (q + 1) <= k * (k - 1));
        } else {
            assert(k * (q + 1) >= k * k);
        }
    }
}

/// The requests of the first `t` cells of the grid are the grid steps out
/// of those cells, each asked for.
proof fn lemma_grid_pairs_steps(k: int, t: int)
    requires
        k >= 1,
        0 <= t <= k * k,
        k * k <= u32::MAX,
    ensures
        forall|s: int|
            0 <= s < grid_pairs(k, t).len() ==> grid_step(
                k,
                #[trigger] grid_pairs(k, t)[s].0 as int,
                grid_pairs(k, t)[s].1 as int,
            ) && grid_pairs(k, t)[s].0 < t,
        forall|x: int, y: int|
            0 <= x < t && #[trigger] grid_step(k, x, y) ==> asks_for(grid_pairs(k, t), x as u32, y as u32),
    decreases t,
{
    if t > 0 {
        lemma_grid_pairs_steps(k, t - 1);
        let prefix = grid_pairs(k, t - 1);
        let x0 = t - 1;
        let cell = grid_cell_pairs(k, x0);
        let all = grid_pairs(k, t);
        assert(all == prefix + cell);
        lemma_next_row(k, x0);
        lemma_grid_pairs_below(k, t);
        assert forall|s: int| 0 <= s < all.len() implies grid_step(
            k,
            #[trigger] all[s].0 as int,
            all[s].1 as int,
        ) && all[s].0 < t by {
            if s < prefix.len() {
                assert(all[s] == prefix[s]);
            } else {
                assert(all[s] == cell[s - prefix.len()]);
            }
        }
        assert forall|x: int, y: int| 0 <= x < t && #[trigger] grid_step(k, x, y) implies asks_for(
            all,
            x as u32,
            y as u32,
        ) by {
            if x < t - 1 {
                let s = choose|s: int| 0 <= s < prefix.len() && #[trigger] pair_joins(prefix[s], x as u32, y as u32);
                assert(all[s] == prefix[s]);
                assert(pair_joins(all[s], x as u32, y as u32));
            } else if y == x + 1 && x % k + 1 < k {
                assert(all[prefix.len() as int] == cell[0]);
                assert(pair_joins(all[prefix.len() as int], x as u32, y as u32));
            } else {
                let s = prefix.len() + cell.len() - 1;
                assert(all[s] == cell[cell.len() - 1]);
                assert(pair_joins(all[s], x as u32, y as u32));
            }
        }
    }
}

/// The grid preset of size `k` is the `k` by `k` grid, cells numbered row
/// by row: two cells are adjacent exactly when they are side by side in a
/// row or one above the other.
pub proof fn lemma_grid_preset_is_grid(k: int)
    requires
        2 <= k,
        k * k <= u32::MAX,
    ensures
        adjacency(preset_graph(Preset::Grid, k)).len() == k * k,
        forall|a: int, b: int|
            0 <= a < k * k && 0 <= b < k * k ==> #[trigger] adjacency(
                preset_graph(Preset::Grid, k),
            )[a][b] == ({
                ||| b == a + 1 && a % k + 1 < k
                ||| a == b + 1 && b % k + 1 < k
                ||| b == a + k
                ||| a == b + k
            }),
{
    let g = preset_graph(Preset::Grid, k);
    let reqs = edge_requests(Preset::Grid, k);
    lemma_preset_edges(Preset::Grid, k);
    lemma_grid_pairs_steps(k, k * k);
    let m = adjacency(g);
    assert forall|a: int, b: int| 0 <= a < k * k && 0 <= b < k * k implies #[trigger] m[a][b] == ({
        ||| b == a + 1 && a % k + 1 < k
        ||| a == b + 1 && b % k + 1 < k
        ||| b == a + k
        ||| a == b + k
    }) by {
        assert(g.vertex_ids[a] == a as u32 && g.vertex_ids[b] == b as u32);
        assert(m[a][b] == joined(g.edges, a as u32, b as u32));
        lemma_next_row(k, a);
        lemma_next_row(k, b);
        if grid_step(k, a, b) {
        } else if grid_step(k, b, a) {
            let s = choose|s: int| 0 <= s < reqs.len() && #[trigger] pair_joins(reqs[s], b as u32, a as u32);
            assert(pair_joins(reqs[s], a as u32, b as u32));
        } else if asks_for(reqs, a as u32, b as u32) {
            let s = choose|s: int| 0 <= s < reqs.len() && #[trigger] pair_joins(reqs[s], a as u32, b as u32);
            assert(grid_step(k, reqs[s].0 as int, reqs[s].1 as int));
        }
    }
}

/// The names `generate` understands, and the preset each one means.
proof fn lemma_preset_names()
    ensures
        preset_named("complete"@) == Some(Preset::Complete),
        preset_named("cycle"@) == Some(Preset::Cycle),
        preset_named("path"@) == Some(Preset::Path),
        preset_named("star"@) == Some(Preset::Star),
        preset_named("wheel"@) == Some(Preset::Wheel),
        preset_named("petersen"@) == Some(Preset::Petersen),
        preset_named("bipartite"@) == Some(Preset::Bipartite),
        preset_named("grid"@) == Some(Preset::Grid),
{
    reveal_strlit("complete");
    reveal_strlit("cycle");
    reveal_strlit("path");
    reveal_strlit("star");
    reveal_strlit("wheel");
    reveal_strlit("petersen");
    reveal_strlit("bipartite");
    reveal_strlit("grid");
    assert("cycle"@.len() != "complete"@.len());
    assert("path"@.len() != "complete"@.len());
    assert("path"@.len() != "cycle"@.len());
    assert("star"@.len() != "complete"@.len());
    assert("star"@.len() != "cycle"@.len());
    assert("star"@[0] != "path"@[0]);
    assert("wheel"@.len() != "complete"@.len());
    assert("wheel"@[0] != "cycle"@[0]);
    assert("wheel"@.len() != "path"@.len());
    assert("wheel"@.len() != "star"@.len());
    assert("petersen"@[0] != "complete"@[0]);
    assert("petersen"@.len() != "cycle"@.len());
    assert("petersen"@.len() != "path"@.len());
    assert("petersen"@.len() != "star"@.len());
    assert("petersen"@.len() != "wheel"@.len());
    assert("bipartite"@.len() != "complete"@.len());
    assert("bipartite"@.len() != "cycle"@.len());
    assert("bipartite"@.len() != "path"@.len());
    assert("bipartite"@.len() != "star"@.len());
    assert("bipartite"@.len() != "wheel"@.len());
    assert("bipartite"@.len() != "petersen"@.len());
    assert("grid"@.len() != "complete"@.len());
    assert("grid"@.len() != "cycle"@.len());
    assert("grid"@[0] != "path"@[0]);
    assert("grid"@[0] != "star"@[0]);
    assert("grid"@.len() != "wheel"@.len());
    assert("grid"@.len() != "petersen"@.len());
    assert("grid"@.len() != "bipartite"@.len());
}

/// `generate("complete", n)` builds the complete graph on `max(n, 2)`
/// vertices: every two distinct vertices are adjacent.
pub proof fn lemma_generate_complete(n: u32)
    ensures
        ({
            let k = if n < 2 { 2 } else { n as int };
            let g = generated("complete"@, n);
            &&& g.vertex_ids == Seq::new((k) as nat, |i: int| i as u32)
            &&& forall|i: int, j: int|
                0 <= i < k && 0 <= j < k ==> #[trigger] adjacency(g)[i][j] == (i != j)
        }),
{
    lemma_preset_names();
    let k = if n < 2 { 2 } else { n as int };
    assert(generated("complete"@, n) == preset_graph(Preset::Complete, k));
    lemma_complete_preset_is_complete(k);
    lemma_preset_edges(Preset::Complete, k);
}

/// `generate("cycle", n)` builds the cycle `0 - 1 - .. - (k - 1) - 0` on
/// `k = max(n, 2)` vertices.
pub proof fn lemma_generate_cycle(n: u32)
    ensures
        ({
            let k = if n < 2 { 2 } else { n as int };
            let g = generated("cycle"@, n);
            &&& g.vertex_ids == Seq::new((k) as nat, |i: int| i as u32)
            &&& forall|i: int, j: int|
                0 <= i < k && 0 <= j < k ==> #[trigger] adjacency(g)[i][j] == (j == (i + 1) % k || i == (j + 1) % k)
        }),
{
    lemma_preset_names();
    let k = if n < 2 { 2 } else { n as int };
    assert(generated("cycle"@, n) == preset_graph(Preset::Cycle, k));
    lemma_cycle_preset_is_cycle(k);
    lemma_preset_edges(Preset::Cycle, k);
}

/// `generate("path", n)` builds the path `0 - 1 - .. - (k - 1)` on
/// `k = max(n, 2)` vertices.
pub proof fn lemma_generate_path(n: u32)
    ensures
        ({
            let k = if n < 2 { 2 } else { n as int };
            let g = generated("path"@, n);
            &&& g.vertex_ids == Seq::new((k) as nat, |i: int| i as u32)
            &&& forall|i: int, j: int|
                0 <= i < k && 0 <= j < k ==> #[trigger] adjacency(g)[i][j] == (j == i + 1 || i == j + 1)
        }),
{
    lemma_preset_names();
    let k = if n < 2 { 2 } else { n as int };
    assert(generated("path"@, n) == preset_graph(Preset::Path, k));
    lemma_path_preset_is_path(k);
    lemma_preset_edges(Preset::Path, k);
}

/// `generate("star", n)` builds a centre `0` joined to `k = max(n, 2)`
/// leaves `1 ..= k`, and nothing else.
pub proof fn lemma_generate_star(n: u32)
    requires
        n < u32::MAX,
    ensures
        ({
            let k = if n < 2 { 2 } else { n as int };
            let g = generated("star"@, n);
            &&& g.vertex_ids == Seq::new((k + 1) as nat, |i: int| i as u32)
            &&& forall|i: int, j: int|
                0 <= i <= k && 0 <= j <= k ==> #[trigger] adjacency(g)[i][j] == ((i == 0) != (j == 0))
        }),
{
    lemma_preset_names();
    let k = if n < 2 { 2 } else { n as int };
    assert(generated("star"@, n) == preset_graph(Preset::Star, k));
    lemma_star_preset_is_star(k);
    lemma_preset_edges(Preset::Star, k);
}

/// `generate("wheel", n)` builds a hub `0` joined to the rim `1 ..= k`,
/// `k = max(n, 2)`, whose vertices form a cycle.
pub proof fn lemma_generate_wheel(n: u32)
    requires
        n < u32::MAX,
    ensures
        ({
            let k = if n < 2 { 2 } else { n as int };
            let g = generated("wheel"@, n);
            &&& g.vertex_ids == Seq::new((k + 1) as nat, |i: int| i as u32)
            &&& forall|i: int, j: int|
                0 <= i <= k && 0 <= j <= k ==> #[trigger] adjacency(g)[i][j] == (((i == 0) != (j == 0)) || (i >= 1 && j >= 1 && (j - 1 == i % k || i - 1 == j % k)))
        }),
{
    lemma_preset_names();
    let k = if n < 2 { 2 } else { n as int };
    assert(generated("wheel"@, n) == preset_graph(Preset::Wheel, k));
    lemma_wheel_preset_is_wheel(k);
    lemma_preset_edges(Preset::Wheel, k);
}

/// `generate("petersen", n)` builds the Petersen graph on 10 vertices,
/// whatever `n` is.
pub proof fn lemma_generate_petersen(n: u32)
    ensures
        ({
            let k = if n < 2 { 2 } else { n as int };
            let g = generated("petersen"@, n);
            &&& g.vertex_ids == Seq::new((10) as nat, |i: int| i as u32)
            &&& forall|i: int, j: int|
                0 <= i < 10 && 0 <= j < 10 ==> #[trigger] adjacency(g)[i][j] == ({
                    ||| i < 5 && j < 5 && (j == (i + 1) % 5 || i == (j + 1) % 5)
                    ||| i >= 5 && j >= 5 && (j - 5 == (i - 5 + 2) % 5 || i - 5 == (j - 5 + 2) % 5)
                    ||| j == i + 5
                    ||| i == j + 5
                })
        }),
{
    lemma_preset_names();
    let k = if n < 2 { 2 } else { n as int };
    assert(generated("petersen"@, n) == preset_graph(Preset::Petersen, k));
    lemma_petersen_preset_is_petersen(k);
    lemma_preset_edges(Preset::Petersen, k);
}

/// `generate("bipartite", n)` builds the complete bipartite graph
/// between `0 .. k` and `k .. 2k`, `k = max(n, 2)`.
pub proof fn lemma_generate_bipartite(n: u32)
    requires
        2 * (n as int) <= u32::MAX,
    ensures
        ({
            let k = if n < 2 { 2 } else { n as int };
            let g = generated("bipartite"@, n);
            &&& g.vertex_ids == Seq::new((2 * k) as nat, |i: int| i as u32)
            &&& forall|i: int, j: int|
                0 <= i < 2 * k && 0 <= j < 2 * k ==> #[trigger] adjacency(g)[i][j] == ((i < k) != (j < k))
        }),
{
    lemma_preset_names();
    let k = if n < 2 { 2 } else { n as int };
    assert(generated("bipartite"@, n) == preset_graph(Preset::Bipartite, k));
    lemma_bipartite_preset_is_complete_bipartite(k);
    lemma_preset_edges(Preset::Bipartite, k);
}

/// `generate("grid", n)` builds the `k` by `k` grid, `k = max(n, 2)`,
/// cells numbered row by row, joined side by side and one above the
/// other.
pub proof fn lemma_generate_grid(n: u32)
    requires
        (n as int) * (n as int) <= u32::MAX,
    ensures
        ({
            let k = if n < 2 { 2 } else { n as int };
            let g = generated("grid"@, n);
            &&& g.vertex_ids == Seq::new((k * k) as nat, |i: int| i as u32)
            &&& forall|i: int, j: int|
                0 <= i < k * k && 0 <= j < k * k ==> #[trigger] adjacency(g)[i][j] == ({
                    ||| j == i + 1 && i % k + 1 < k
                    ||| i == j + 1 && j % k + 1 < k
                    ||| j == i + k
                    ||| i == j + k
                })
        }),
{
    lemma_preset_names();
    let k = if n < 2 { 2 } else { n as int };
    assert(generated("grid"@, n) == preset_graph(Preset::Grid, k));
    lemma_grid_preset_is_grid(k);
    lemma_preset_edges(Preset::Grid, k);
}

} // verus!
