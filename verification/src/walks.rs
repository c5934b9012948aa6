//! Walks in an adjacency matrix: the mathematical model behind every
//! traversal of the library.
//!
//! A matrix `m` has one row per vertex; `m[u][v]` says that `u` and `v` are
//! joined. `walk(m, s, t, k)` says that some walk of exactly `k` steps leads
//! from `s` to `t`.
use vstd::prelude::*;

verus! {

/// Every row has one entry per vertex.
pub open spec fn is_square(m: Seq<Seq<bool>>) -> bool {
    forall|i: int| 0 <= i < m.len() ==> #[trigger] m[i].len() == m.len()
}

/// The relation is undirected.
pub open spec fn is_symmetric(m: Seq<Seq<bool>>) -> bool {
    forall|i: int, j: int| 0 <= i < m.len() && 0 <= j < m.len() ==> #[trigger] m[i][j] == m[j][i]
}

/// No vertex is joined to itself.
pub open spec fn is_loopless(m: Seq<Seq<bool>>) -> bool {
    forall|i: int| 0 <= i < m.len() ==> !#[trigger] m[i][i]
}

/// The matrix of a simple undirected graph.
pub open spec fn is_simple_graph(m: Seq<Seq<bool>>) -> bool {
    is_square(m) && is_symmetric(m) && is_loopless(m)
}

/// A walk of exactly `k` steps leads from `s` to `t`.
pub open spec fn walk(m: Seq<Seq<bool>>, s: int, t: int, k: int) -> bool
    decreases k,
{
    if k <= 0 {
        k == 0 && s == t
    } else {
        exists|v: int| 0 <= v < m.len() && walk(m, s, v, k - 1) && #[trigger] m[v][t]
    }
}

/// `t` can be reached from `s`.
pub open spec fn reachable(m: Seq<Seq<bool>>, s: int, t: int) -> bool {
    exists|k: int| #[trigger] walk(m, s, t, k)
}

/// `d` is the length of a shortest walk from `s` to `t`.
pub open spec fn is_distance(m: Seq<Seq<bool>>, s: int, t: int, d: int) -> bool {
    walk(m, s, t, d) && forall|j: int| j < d ==> !#[trigger] walk(m, s, t, j)
}

/// Every vertex can be reached from every vertex.
pub open spec fn all_connected(m: Seq<Seq<bool>>) -> bool {
    forall|s: int, t: int| 0 <= s < m.len() && 0 <= t < m.len() ==> #[trigger] reachable(m, s, t)
}

/// `i` is the first vertex of its connected component.
pub open spec fn is_component_leader(m: Seq<Seq<bool>>, i: int) -> bool {
    forall|j: int| 0 <= j < i ==> !#[trigger] reachable(m, j, i)
}

/// The number of component leaders among the first `k` vertices.
pub open spec fn leaders_below(m: Seq<Seq<bool>>, k: int) -> nat
    decreases k,
{
    if k <= 0 {
        0
    } else {
        leaders_below(m, k - 1) + if is_component_leader(m, k - 1) {
            1nat
        } else {
            0nat
        }
    }
}

/// The number of connected components: each component has exactly one
/// first vertex.
pub open spec fn component_count(m: Seq<Seq<bool>>) -> nat {
    leaders_below(m, m.len() as int)
}

/// `c` gives the two sides of a bipartition: joined vertices lie on
/// different sides.
pub open spec fn is_two_coloring(m: Seq<Seq<bool>>, c: Seq<bool>) -> bool {
    &&& c.len() == m.len()
    &&& forall|u: int, v: int|
        0 <= u < m.len() && 0 <= v < m.len() && #[trigger] m[u][v] ==> c[u] != c[v]
}

/// The vertices can be split into two sides with no edge inside a side.
pub open spec fn is_bipartite_matrix(m: Seq<Seq<bool>>) -> bool {
    exists|c: Seq<bool>| #[trigger] is_two_coloring(m, c)
}

/// Some walk of at most `d` steps leads from `s` to `t`.
pub open spec fn within(m: Seq<Seq<bool>>, s: int, t: int, d: int) -> bool {
    exists|j: int| j <= d && #[trigger] walk(m, s, t, j)
}

/// The greatest distance between two vertices of a connected graph: every
/// pair is joined by a walk of at most `d` steps, and (for `d > 0`) some
/// pair by none shorter than `d`.
pub open spec fn is_diameter(m: Seq<Seq<bool>>, d: int) -> bool {
    &&& forall|s: int, t: int|
        0 <= s < m.len() && 0 <= t < m.len() ==> #[trigger] within(m, s, t, d)
    &&& exists|s: int, t: int|
        0 <= s < m.len() && 0 <= t < m.len() && #[trigger] is_distance(m, s, t, d)
}

// ── lemmas ──────────────────────────────────────────────────────────────────
/// One step along an edge is a walk.
pub proof fn lemma_walk_step(m: Seq<Seq<bool>>, s: int, t: int)
    requires
        0 <= s < m.len(),
        m[s][t],
    ensures
        walk(m, s, t, 1),
{
    assert(walk(m, s, s, 0));
}

/// A walk extended by one edge.
pub proof fn lemma_walk_extend(m: Seq<Seq<bool>>, s: int, v: int, t: int, k: int)
    requires
        0 <= v < m.len(),
        walk(m, s, v, k),
        m[v][t],
    ensures
        walk(m, s, t, k + 1),
{
    assert(walk(m, s, v, (k + 1) - 1));
}

/// Two walks joined end to end.
pub proof fn lemma_walk_concat(m: Seq<Seq<bool>>, s: int, v: int, t: int, a: int, b: int)
    requires
        walk(m, s, v, a),
        walk(m, v, t, b),
    ensures
        walk(m, s, t, a + b),
    decreases b,
{
    if b > 0 {
        let w = choose|w: int| 0 <= w < m.len() && walk(m, v, w, b - 1) && #[trigger] m[w][t];
        lemma_walk_concat(m, s, v, w, a, b - 1);
        lemma_walk_extend(m, s, w, t, a + b - 1);
    }
}

/// In an undirected graph a walk can be taken backwards.
pub proof fn lemma_walk_reverse(m: Seq<Seq<bool>>, s: int, t: int, k: int)
    requires
        is_symmetric(m),
        0 <= s < m.len(),
        0 <= t < m.len(),
        walk(m, s, t, k),
    ensures
        walk(m, t, s, k),
    decreases k,
{
    if k > 0 {
        let w = choose|w: int| 0 <= w < m.len() && walk(m, s, w, k - 1) && #[trigger] m[w][t];
        lemma_walk_reverse(m, s, w, k - 1);
        assert(m[t][w]);
        lemma_walk_step(m, t, w);
        lemma_walk_concat(m, t, w, s, 1, k - 1);
    }
}

/// Reachability is symmetric in an undirected graph.
pub proof fn lemma_reachable_symmetric(m: Seq<Seq<bool>>, s: int, t: int)
    requires
        is_symmetric(m),
        0 <= s < m.len(),
        0 <= t < m.len(),
        reachable(m, s, t),
    ensures
        reachable(m, t, s),
{
    let k = choose|k: int| #[trigger] walk(m, s, t, k);
    lemma_walk_reverse(m, s, t, k);
}

/// Reachability is transitive.
pub proof fn lemma_reachable_transitive(m: Seq<Seq<bool>>, s: int, v: int, t: int)
    requires
        reachable(m, s, v),
        reachable(m, v, t),
    ensures
        reachable(m, s, t),
{
    let a = choose|a: int| #[trigger] walk(m, s, v, a);
    let b = choose|b: int| #[trigger] walk(m, v, t, b);
    lemma_walk_concat(m, s, v, t, a, b);
}

/// Every vertex reaches itself.
pub proof fn lemma_reachable_refl(m: Seq<Seq<bool>>, s: int)
    ensures
        reachable(m, s, s),
{
    assert(walk(m, s, s, 0));
}

/// Along a walk, the sides of a two-colouring alternate with each step.
pub proof fn lemma_walk_parity(m: Seq<Seq<bool>>, c: Seq<bool>, s: int, t: int, k: int)
    requires
        is_two_coloring(m, c),
        0 <= t < m.len(),
        walk(m, s, t, k),
    ensures
        c[t] == (c[s] != (k % 2 == 1)),
    decreases k,
{
    if k > 0 {
        let w = choose|w: int| 0 <= w < m.len() && walk(m, s, w, k - 1) && #[trigger] m[w][t];
        lemma_walk_parity(m, c, s, w, k - 1);
        assert(c[w] != c[t]);
    }
}

/// The count of leaders grows by at most one per vertex.
pub proof fn lemma_leaders_bounds(m: Seq<Seq<bool>>, k: int)
    requires
        0 <= k,
    ensures
        leaders_below(m, k) <= k,
    decreases k,
{
    if k > 0 {
        lemma_leaders_bounds(m, k - 1);
    }
}

/// The count of leaders never decreases along the vertices.
proof fn lemma_leaders_monotone(m: Seq<Seq<bool>>, a: int, b: int)
    requires
        0 <= a <= b,
    ensures
        leaders_below(m, a) <= leaders_below(m, b),
    decreases b - a,
{
    if a < b {
        lemma_leaders_monotone(m, a, b - 1);
    }
}

/// When every vertex reaches every other, vertex 0 is the only leader.
proof fn lemma_connected_one_leader(m: Seq<Seq<bool>>, k: int)
    requires
        1 <= k <= m.len(),
        all_connected(m),
    ensures
        leaders_below(m, k) == 1,
    decreases k,
{
    assert(leaders_below(m, 0) == 0);
    assert(is_component_leader(m, 0));
    if k > 1 {
        lemma_connected_one_leader(m, k - 1);
        assert(reachable(m, 0, k - 1));
        assert(!is_component_leader(m, k - 1));
    }
}

/// With a single leader, vertex 0 reaches every vertex.
proof fn lemma_one_leader_reaches(m: Seq<Seq<bool>>, i: int)
    requires
        0 <= i < m.len(),
        leaders_below(m, m.len() as int) == 1,
    ensures
        reachable(m, 0, i),
    decreases i,
{
    if i == 0 {
        lemma_reachable_refl(m, 0);
    } else {
        if is_component_leader(m, i) {
            assert(is_component_leader(m, 0));
            assert(leaders_below(m, 0) == 0);
            assert(leaders_below(m, 1) == 1);
            lemma_leaders_monotone(m, 1, i);
            lemma_leaders_monotone(m, i + 1, m.len() as int);
            assert(leaders_below(m, i + 1) >= 2);
        } else {
            let j = choose|j: int| 0 <= j < i && #[trigger] reachable(m, j, i);
            lemma_one_leader_reaches(m, j);
            lemma_reachable_transitive(m, 0, j, i);
        }
    }
}

/// A graph with at least one vertex has exactly one connected component
/// exactly when every vertex can reach every other.
pub proof fn lemma_one_component_iff_connected(m: Seq<Seq<bool>>)
    requires
        is_symmetric(m),
        m.len() >= 1,
    ensures
        component_count(m) == 1 <==> all_connected(m),
{
    if all_connected(m) {
        lemma_connected_one_leader(m, m.len() as int);
    }
    if component_count(m) == 1 {
        assert forall|s: int, t: int| 0 <= s < m.len() && 0 <= t < m.len() implies #[trigger] reachable(
            m,
            s,
            t,
        ) by {
            lemma_one_leader_reaches(m, s);
            lemma_one_leader_reaches(m, t);
            lemma_reachable_symmetric(m, 0, s);
            lemma_reachable_transitive(m, s, 0, t);
        }
    }
}

} // verus!
