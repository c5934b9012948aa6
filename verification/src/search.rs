//! Breadth-first search and what is built on it: distances, connected
//! components and the bipartiteness test.
use vstd::prelude::*;
use crate::degrees::degree_list;
use crate::walks::{
    all_connected, component_count, is_diameter, within, is_bipartite_matrix, is_component_leader, is_distance, is_square,
    is_symmetric, is_two_coloring, leaders_below, lemma_reachable_symmetric,
    lemma_reachable_transitive, lemma_walk_extend, lemma_walk_parity, lemma_walk_step, reachable,
    walk,
};

verus! {

/// No vertex still marked unreached (`-1`) can be reached by a walk of at
/// most `level` steps, once no vertex sits at distance `level` itself.
proof fn lemma_unreached_stay_unreached(
    m: Seq<Seq<bool>>,
    start: int,
    dist: Seq<i64>,
    level: int,
    u: int,
    k: int,
)
    requires
        is_square(m),
        0 <= start < m.len(),
        dist.len() == m.len(),
        0 <= level,
        0 <= u < m.len(),
        forall|x: int| 0 <= x < m.len() ==> -1 <= #[trigger] dist[x] < level,
        forall|x: int|
            0 <= x < m.len() && #[trigger] dist[x] >= 0 ==> is_distance(m, start, x, dist[x] as int),
        forall|x: int, j: int|
            0 <= x < m.len() && dist[x] == -1 && j <= level ==> !#[trigger] walk(m, start, x, j),
        walk(m, start, u, k),
    ensures
        dist[u] != -1,
    decreases k,
{
    if k > level {
        let w = choose|w: int| 0 <= w < m.len() && walk(m, start, w, k - 1) && #[trigger] m[w][u];
        lemma_unreached_stay_unreached(m, start, dist, level, w, k - 1);
        let d = dist[w] as int;
        assert(walk(m, start, w, d));
        lemma_walk_extend(m, start, w, u, d);
        assert(walk(m, start, u, d + 1));
    }
}

/// Distances from `start`: `-1` for a vertex that cannot be reached, else the
/// number of steps of a shortest walk.
pub fn bfs_distances(start: usize, adj: &Vec<Vec<bool>>) -> (dist: Vec<i64>)
    requires
        is_square(adj.deep_view()),
        start < adj.len(),
        adj.len() < i64::MAX,
    ensures
        dist.len() == adj.len(),
        forall|u: int| 0 <= u < adj.len() ==> -1 <= #[trigger] dist@[u] < adj.len(),
        forall|u: int|
            0 <= u < adj.len() ==> (#[trigger] dist@[u] == -1 <==> !reachable(
                adj.deep_view(),
                start as int,
                u,
            )),
        forall|u: int|
            0 <= u < adj.len() && #[trigger] dist@[u] >= 0 ==> is_distance(
                adj.deep_view(),
                start as int,
                u,
                dist@[u] as int,
            ),
{
    let n = adj.len();
    let ghost m = adj.deep_view();
    let mut dist: Vec<i64> = vec![-1i64; n];
    dist.set(start, 0);
    let mut frontier: Vec<usize> = Vec::new();
    frontier.push(start);
    let mut level: i64 = 0;
    let ghost mut visited: Set<int> = set![start as int];
    proof {
        assert(walk(m, start as int, start as int, 0));
        assert forall|x: int, j: int|
            0 <= x < n && dist@[x] == -1 && j <= level implies !#[trigger] walk(
                m,
                start as int,
                x,
                j,
            ) by {
            assert(x != start);
        }
        assert(visited =~= Set::new(|u: int| 0 <= u < n && dist@[u] >= 0));
        assert forall|x: int|
            0 <= x < n implies (#[trigger] dist@[x] == level <==> frontier@.contains(x as usize)) by {
            if x == start as int {
                assert(frontier@[0] == start);
            }
        }
    }
    while frontier.len() > 0
        invariant
            n == adj.len(),
            m == adj.deep_view(),
            is_square(m),
            start < n,
            n < i64::MAX,
            dist.len() == n,
            0 <= level <= n,
            forall|x: int| 0 <= x < n ==> -1 <= #[trigger] dist@[x] <= level,
            forall|x: int|
                0 <= x < n && #[trigger] dist@[x] >= 0 ==> is_distance(
                    m,
                    start as int,
                    x,
                    dist@[x] as int,
                ),
            forall|x: int, j: int|
                0 <= x < n && dist@[x] == -1 && j <= level ==> !#[trigger] walk(
                    m,
                    start as int,
                    x,
                    j,
                ),
            forall|i: int| 0 <= i < frontier.len() ==> #[trigger] frontier@[i] < n,
            forall|x: int|
                0 <= x < n ==> (#[trigger] dist@[x] == level <==> frontier@.contains(x as usize)),
            visited == Set::new(|u: int| 0 <= u < n && dist@[u] >= 0),
            frontier.len() > 0 ==> visited.len() >= level + 1,
        decreases n - visited.len() + frontier.len(),
    {
        proof {
            vstd::set_lib::lemma_int_range(0, n as int);
            assert(visited.subset_of(vstd::set_lib::set_int_range(0, n as int)));
            vstd::set_lib::lemma_len_subset(visited, vstd::set_lib::set_int_range(0, n as int));
        }
        let ghost old_dist = dist@;
        let ghost old_visited = visited;
        let mut next: Vec<usize> = Vec::new();
        let mut fi: usize = 0;
        while fi < frontier.len()
            invariant
                n == adj.len(),
                m == adj.deep_view(),
                is_square(m),
                start < n,
                dist.len() == n,
                0 <= level < n,
                n < i64::MAX,
                old_dist.len() == n,
                fi <= frontier.len(),
                forall|i: int| 0 <= i < frontier.len() ==> #[trigger] frontier@[i] < n,
                forall|x: int|
                    0 <= x < n ==> (#[trigger] old_dist[x] == level <==> frontier@.contains(
                        x as usize,
                    )),
                forall|x: int|
                    0 <= x < n ==> (#[trigger] dist@[x] == level + 1 <==> (old_dist[x] == -1
                        && exists|i: int| 0 <= i < fi && #[trigger] m[frontier@[i] as int][x])),
                forall|x: int| 0 <= x < n && dist@[x] != level + 1 ==> dist@[x] == old_dist[x],
                forall|i: int| 0 <= i < next.len() ==> #[trigger] next@[i] < n,
                forall|x: int|
                    0 <= x < n ==> (#[trigger] dist@[x] == level + 1 <==> next@.contains(
                        x as usize,
                    )),
                visited == Set::new(|u: int| 0 <= u < n && dist@[u] >= 0),
                old_visited == Set::new(|u: int| 0 <= u < n && old_dist[u] >= 0),
                visited.finite(),
                old_visited.finite(),
                visited.len() == old_visited.len() + next.len(),
                forall|x: int| 0 <= x < n ==> -1 <= #[trigger] old_dist[x] <= level,
                forall|x: int|
                    0 <= x < n && #[trigger] old_dist[x] >= 0 ==> is_distance(
                        m,
                        start as int,
                        x,
                        old_dist[x] as int,
                    ),
                forall|x: int, j: int|
                    0 <= x < n && old_dist[x] == -1 && j <= level ==> !#[trigger] walk(
                        m,
                        start as int,
                        x,
                        j,
                    ),
            decreases frontier.len() - fi,
        {
            let v = frontier[fi];
            assert(adj@[v as int]@.len() == n) by {
                assert(m[v as int].len() == n);
            }
            let mut u: usize = 0;
            while u < n
                invariant
                    n == adj.len(),
                    m == adj.deep_view(),
                    is_square(m),
                    dist.len() == n,
                    0 <= level < n,
                    n < i64::MAX,
                    old_dist.len() == n,
                    fi < frontier.len(),
                    v == frontier@[fi as int],
                    v < n,
                    u <= n,
                    adj@[v as int]@.len() == n,
                    forall|i: int| 0 <= i < frontier.len() ==> #[trigger] frontier@[i] < n,
                    forall|x: int|
                        0 <= x < n ==> (#[trigger] dist@[x] == level + 1 <==> (old_dist[x] == -1
                            && ((exists|i: int| 0 <= i < fi && #[trigger] m[frontier@[i] as int][x])
                            || (x < u && m[v as int][x])))),
                    forall|x: int| 0 <= x < n && dist@[x] != level + 1 ==> dist@[x] == old_dist[x],
                    forall|i: int| 0 <= i < next.len() ==> #[trigger] next@[i] < n,
                    forall|x: int|
                        0 <= x < n ==> (#[trigger] dist@[x] == level + 1 <==> next@.contains(
                            x as usize,
                        )),
                    visited == Set::new(|u: int| 0 <= u < n && dist@[u] >= 0),
                    old_visited == Set::new(|u: int| 0 <= u < n && old_dist[u] >= 0),
                    visited.finite(),
                    old_visited.finite(),
                    visited.len() == old_visited.len() + next.len(),
                    forall|x: int| 0 <= x < n ==> -1 <= #[trigger] old_dist[x] <= level,
                    forall|x: int|
                        0 <= x < n && #[trigger] old_dist[x] >= 0 ==> is_distance(
                            m,
                            start as int,
                            x,
                            old_dist[x] as int,
                        ),
                    forall|x: int, j: int|
                        0 <= x < n && old_dist[x] == -1 && j <= level ==> !#[trigger] walk(
                            m,
                            start as int,
                            x,
                            j,
                        ),
                decreases n - u,
            {
                assert(adj@[v as int]@[u as int] == m[v as int][u as int]);
                if adj[v][u] && dist[u] == -1 {
                    let ghost before = dist@;
                    let ghost before_next = next@;
                    dist.set(u, level + 1);
                    next.push(u);
                    proof {
                        assert(!visited.contains(u as int));
                        visited = visited.insert(u as int);
                        assert(visited =~= Set::new(|w: int| 0 <= w < n && dist@[w] >= 0));
                        assert forall|x: int|
                            0 <= x < n implies (#[trigger] dist@[x] == level + 1
                                <==> next@.contains(x as usize)) by {
                            if x != u as int {
                                assert(dist@[x] == before[x]);
                                if before_next.contains(x as usize) {
                                    let k = choose|k: int|
                                        0 <= k < before_next.len() && before_next[k] == x as usize;
                                    assert(next@[k] == x as usize);
                                }
                                if next@.contains(x as usize) {
                                    let k = choose|k: int|
                                        0 <= k < next@.len() && next@[k] == x as usize;
                                    assert(k < before_next.len());
                                    assert(before_next[k] == x as usize);
                                }
                            } else {
                                assert(next@[next@.len() - 1] == u);
                            }
                        }
                    }
                }
                u = u + 1;
            }
            fi = fi + 1;
        }
        proof {
            // Establish the invariants for the next level.
            assert forall|x: int|
                0 <= x < n && #[trigger] dist@[x] >= 0 implies is_distance(
                m,
                start as int,
                x,
                dist@[x] as int,
            ) by {
                if dist@[x] == level + 1 {
                    let i = choose|i: int| 0 <= i < frontier.len() && #[trigger] m[frontier@[i] as int][x];
                    let w = frontier@[i] as int;
                    assert(frontier@.contains(w as usize));
                    assert(old_dist[w] == level);
                    lemma_walk_extend(m, start as int, w, x, level as int);
                    assert forall|j: int| j < (level + 1) as int implies !#[trigger] walk(
                        m,
                        start as int,
                        x,
                        j,
                    ) by {}
                }
            }
            assert forall|x: int, j: int|
                0 <= x < n && dist@[x] == -1 && j <= level + 1 implies !#[trigger] walk(
                m,
                start as int,
                x,
                j,
            ) by {
                if j == level + 1 && walk(m, start as int, x, j) {
                    let w = choose|w: int| 0 <= w < m.len() && walk(m, start as int, w, j - 1) && #[trigger] m[w][x];
                    assert(old_dist[w] != -1);
                    let d = old_dist[w];
                    assert(is_distance(m, start as int, w, d as int));
                    if d == level {
                        assert(frontier@.contains(w as usize));
                        let i = choose|i: int| 0 <= i < frontier.len() && frontier@[i] == w as usize;
                        assert(m[frontier@[i] as int][x]);
                        assert(dist@[x] == level + 1);
                    } else {
                        lemma_walk_extend(m, start as int, w, x, d as int);
                        assert(walk(m, start as int, x, (d + 1) as int));
                    }
                }
            }
        }
        level = level + 1;
        frontier = next;
    }
    proof {
        assert forall|x: int| 0 <= x < n implies -1 <= #[trigger] dist@[x] < n by {
            if dist@[x] == level {
                assert(frontier@.contains(x as usize));
            }
        }
        assert forall|u: int| 0 <= u < n implies (#[trigger] dist@[u] == -1 <==> !reachable(
            m,
            start as int,
            u,
        )) by {
            if dist@[u] >= 0 {
                assert(walk(m, start as int, u, dist@[u] as int));
            } else {
                assert forall|k: int| !#[trigger] walk(m, start as int, u, k) by {
                    if walk(m, start as int, u, k) {
                        assert forall|x: int| 0 <= x < m.len() implies -1 <= #[trigger] dist@[x]
                            < level by {
                            if dist@[x] == level {
                                assert(frontier@.contains(x as usize));
                            }
                        }
                        lemma_unreached_stay_unreached(m, start as int, dist@, level as int, u, k);
                    }
                }
            }
        }
    }
    dist
}

/// The number of connected components.
pub fn connected_components(adj: &Vec<Vec<bool>>) -> (count: usize)
    requires
        is_square(adj.deep_view()),
        is_symmetric(adj.deep_view()),
        adj.len() < i64::MAX,
    ensures
        count == component_count(adj.deep_view()),
{
    let n = adj.len();
    let ghost m = adj.deep_view();
    let mut visited: Vec<bool> = vec![false; n];
    let mut count: usize = 0;
    let mut start: usize = 0;
    while start < n
        invariant
            n == adj.len(),
            m == adj.deep_view(),
            is_square(m),
            is_symmetric(m),
            n < i64::MAX,
            start <= n,
            visited.len() == n,
            count == leaders_below(m, start as int),
            count <= start,
            forall|u: int|
                0 <= u < n ==> (#[trigger] visited@[u] <==> exists|j: int|
                    0 <= j < start && #[trigger] reachable(m, j, u)),
        decreases n - start,
    {
        proof {
            assert(is_component_leader(m, start as int) <==> !visited@[start as int]);
        }
        if !visited[start] {
            count = count + 1;
            let dist = bfs_distances(start, adj);
            let ghost old_visited = visited@;
            let mut u: usize = 0;
            while u < n
                invariant
                    n == adj.len(),
                    m == adj.deep_view(),
                    start < n,
                    visited.len() == n,
                    dist.len() == n,
                    u <= n,
                    old_visited.len() == n,
                    forall|x: int| 0 <= x < n ==> -1 <= #[trigger] dist@[x],
                    forall|x: int|
                        0 <= x < n ==> (#[trigger] dist@[x] == -1 <==> !reachable(
                            m,
                            start as int,
                            x,
                        )),
                    forall|x: int|
                        0 <= x < n ==> (#[trigger] visited@[x] <==> (old_visited[x] || (x < u
                            && reachable(m, start as int, x)))),
                decreases n - u,
            {
                if dist[u] >= 0 {
                    visited.set(u, true);
                }
                u = u + 1;
            }
            proof {
                assert forall|x: int|
                    0 <= x < n implies (#[trigger] visited@[x] <==> exists|j: int|
                        0 <= j < start + 1 && #[trigger] reachable(m, j, x)) by {
                    if reachable(m, start as int, x) {
                        assert(reachable(m, start as int, x));
                    }
                }
            }
        } else {
            proof {
                assert forall|x: int|
                    0 <= x < n implies (#[trigger] visited@[x] <==> exists|j: int|
                        0 <= j < start + 1 && #[trigger] reachable(m, j, x)) by {
                    if reachable(m, start as int, x) {
                        let j = choose|j: int| 0 <= j < start && #[trigger] reachable(m, j, start as int);
                        lemma_reachable_transitive(m, j, start as int, x);
                    }
                }
            }
        }
        start = start + 1;
    }
    count
}

/// Every coloured vertex `u` carries a root `root[u]` from which a walk of
/// the parity `color[u]` reaches it, and colouring is closed under
/// reachability with the root shared.
spec fn rooted_parity(m: Seq<Seq<bool>>, color: Seq<i32>, root: Seq<int>) -> bool {
    &&& color.len() == m.len()
    &&& root.len() == m.len()
    &&& forall|u: int|
        0 <= u < m.len() && #[trigger] color[u] != -1 ==> 0 <= root[u] < m.len() && exists|d: int|
            #[trigger] walk(m, root[u], u, d) && d % 2 == color[u]
    &&& forall|u: int, x: int|
        0 <= u < m.len() && 0 <= x < m.len() && color[u] != -1 && #[trigger] reachable(m, u, x)
            ==> color[x] != -1 && root[x] == root[u]
}

/// Colours each component by the parity of the distances from its first
/// vertex.
fn color_by_parity(adj: &Vec<Vec<bool>>) -> (color: Vec<i32>)
    requires
        is_square(adj.deep_view()),
        is_symmetric(adj.deep_view()),
        adj.len() < i64::MAX,
    ensures
        color.len() == adj.len(),
        forall|u: int| 0 <= u < adj.len() ==> 0 <= #[trigger] color@[u] <= 1,
        exists|root: Seq<int>| rooted_parity(adj.deep_view(), color@, root),
{
    let n = adj.len();
    let ghost m = adj.deep_view();
    let mut color: Vec<i32> = vec![-1i32; n];
    let ghost mut root: Seq<int> = Seq::new(n as nat, |i: int| 0);
    let mut start: usize = 0;
    while start < n
        invariant
            n == adj.len(),
            m == adj.deep_view(),
            is_square(m),
            is_symmetric(m),
            n < i64::MAX,
            start <= n,
            color.len() == n,
            forall|j: int| 0 <= j < start ==> #[trigger] color@[j] != -1,
            forall|u: int| 0 <= u < n ==> -1 <= #[trigger] color@[u] <= 1,
            rooted_parity(m, color@, root),
        decreases n - start,
    {
        if color[start] == -1 {
            let dist = bfs_distances(start, adj);
            let ghost old_color = color@;
            let ghost old_root = root;
            proof {
                // Nothing that `start` reaches is coloured yet.
                assert forall|x: int|
                    0 <= x < n && reachable(m, start as int, x) implies #[trigger] old_color[x]
                    == -1 by {
                    if old_color[x] != -1 {
                        lemma_reachable_symmetric(m, start as int, x);
                        assert(reachable(m, x, start as int));
                    }
                }
            }
            let mut u: usize = 0;
            while u < n
                invariant
                    n == adj.len(),
                    m == adj.deep_view(),
                    start < n,
                    color.len() == n,
                    root.len() == n,
                    dist.len() == n,
                    u <= n,
                    old_color.len() == n,
                    old_root.len() == n,
                    forall|x: int| 0 <= x < n ==> -1 <= #[trigger] dist@[x] < n,
                    forall|x: int|
                        0 <= x < n ==> #[trigger] color@[x] == (if x < u && dist@[x] >= 0 {
                            (dist@[x] % 2) as i32
                        } else {
                            old_color[x]
                        }),
                    forall|x: int|
                        0 <= x < n ==> #[trigger] root[x] == (if x < u && dist@[x] >= 0 {
                            start as int
                        } else {
                            old_root[x]
                        }),
                decreases n - u,
            {
                if dist[u] >= 0 {
                    color.set(u, (dist[u] % 2) as i32);
                    proof {
                        root = root.update(u as int, start as int);
                    }
                }
                u = u + 1;
            }
            proof {
                assert forall|x: int|
                    0 <= x < n && #[trigger] color@[x] != -1 implies 0 <= root[x] < n && exists|
                        d: int,
                    | #[trigger] walk(m, root[x], x, d) && d % 2 == color@[x] by {
                    if dist@[x] >= 0 {
                        assert(walk(m, start as int, x, dist@[x] as int));
                        assert(root[x] == start as int);
                    } else {
                        assert(old_color[x] != -1);
                        assert(root[x] == old_root[x]);
                        let d = choose|d: int|
                            #[trigger] walk(m, old_root[x], x, d) && d % 2 == old_color[x];
                        assert(walk(m, root[x], x, d));
                    }
                }
                assert forall|a: int, x: int|
                    0 <= a < n && 0 <= x < n && color@[a] != -1 && #[trigger] reachable(m, a, x)
                        implies color@[x] != -1 && root[x] == root[a] by {
                    if dist@[a] >= 0 {
                        lemma_reachable_transitive(m, start as int, a, x);
                    } else {
                        assert(old_color[a] != -1);
                        if dist@[x] >= 0 {
                            lemma_reachable_symmetric(m, a, x);
                            lemma_reachable_transitive(m, start as int, x, a);
                        }
                    }
                }
                assert(color@[start as int] != -1) by {
                    assert(walk(m, start as int, start as int, 0));
                }
                assert(rooted_parity(m, color@, root));
            }
        }
        start = start + 1;
    }
    color
}

/// Whether some edge joins two vertices of the same colour.
fn has_monochrome_edge(adj: &Vec<Vec<bool>>, color: &Vec<i32>) -> (found: bool)
    requires
        is_square(adj.deep_view()),
        color.len() == adj.len(),
    ensures
        found == exists|a: int, b: int|
            0 <= a < adj.len() && 0 <= b < adj.len() && #[trigger] adj.deep_view()[a][b]
                && color@[a] == color@[b],
{
    let n = adj.len();
    let ghost m = adj.deep_view();
    let mut v: usize = 0;
    while v < n
        invariant
            n == adj.len(),
            m == adj.deep_view(),
            is_square(m),
            color.len() == n,
            v <= n,
            forall|a: int, b: int|
                0 <= a < v && 0 <= b < n && #[trigger] m[a][b] ==> color@[a] != color@[b],
        decreases n - v,
    {
        assert(adj@[v as int]@.len() == n) by {
            assert(m[v as int].len() == n);
        }
        let mut u: usize = 0;
        while u < n
            invariant
                n == adj.len(),
                m == adj.deep_view(),
                color.len() == n,
                v < n,
                u <= n,
                adj@[v as int]@.len() == n,
                forall|a: int, b: int|
                    0 <= a < v && 0 <= b < n && #[trigger] m[a][b] ==> color@[a] != color@[b],
                forall|b: int| 0 <= b < u && #[trigger] m[v as int][b] ==> color@[v as int] != color@[b],
            decreases n - u,
        {
            assert(adj@[v as int]@[u as int] == m[v as int][u as int]);
            if adj[v][u] && color[u] == color[v] {
                assert(m[v as int][u as int] && color@[v as int] == color@[u as int]);
                return true;
            }
            u = u + 1;
        }
        v = v + 1;
    }
    false
}

/// Whether the vertices can be split into two sides with every edge going
/// across: each component is coloured by the parity of its distances from its
/// first vertex, and then every edge is checked.
pub fn is_bipartite(adj: &Vec<Vec<bool>>) -> (bipartite: bool)
    requires
        is_square(adj.deep_view()),
        is_symmetric(adj.deep_view()),
        adj.len() < i64::MAX,
    ensures
        bipartite == is_bipartite_matrix(adj.deep_view()),
{
    let ghost m = adj.deep_view();
    let n = adj.len();
    let color = color_by_parity(adj);
    let found = has_monochrome_edge(adj, &color);
    proof {
        if found {
            let (a, b) = choose|a: int, b: int|
                0 <= a < n && 0 <= b < n && #[trigger] m[a][b] && color@[a] == color@[b];
            let root = choose|root: Seq<int>| rooted_parity(m, color@, root);
            lemma_walk_step(m, a, b);
            assert(reachable(m, a, b));
            let r = root[a];
            let da = choose|d: int| #[trigger] walk(m, r, a, d) && d % 2 == color@[a];
            let db = choose|d: int| #[trigger] walk(m, r, b, d) && d % 2 == color@[b];
            assert forall|c: Seq<bool>| !#[trigger] is_two_coloring(m, c) by {
                if is_two_coloring(m, c) {
                    lemma_walk_parity(m, c, r, a, da);
                    lemma_walk_parity(m, c, r, b, db);
                    assert(c[a] != c[b]);
                }
            }
        } else {
            let c = Seq::new(n as nat, |i: int| color@[i] == 1);
            assert(is_two_coloring(m, c));
        }
    }
    !found
}

/// The greatest distance between two vertices of a connected graph: the
/// largest entry of the breadth-first distances from every vertex.
pub fn diameter_of_connected(adj: &Vec<Vec<bool>>) -> (diameter: i64)
    requires
        is_square(adj.deep_view()),
        all_connected(adj.deep_view()),
        1 <= adj.len() < i64::MAX,
    ensures
        0 <= diameter < adj.len(),
        is_diameter(adj.deep_view(), diameter as int),
{
    let n = adj.len();
    let ghost m = adj.deep_view();
    let mut diam: i64 = 0;
    proof {
        assert(is_distance(m, 0, 0, 0)) by {
            assert(walk(m, 0, 0, 0));
        }
    }
    let mut s: usize = 0;
    while s < n
        invariant
            n == adj.len(),
            m == adj.deep_view(),
            is_square(m),
            all_connected(m),
            1 <= n < i64::MAX,
            s <= n,
            0 <= diam < n,
            forall|a: int, b: int| 0 <= a < s && 0 <= b < n ==> #[trigger] within(m, a, b, diam as int),
            exists|a: int, b: int|
                0 <= a < n && 0 <= b < n && #[trigger] is_distance(m, a, b, diam as int),
        decreases n - s,
    {
        let dist = bfs_distances(s, adj);
        let ghost before = diam;
        let mut u: usize = 0;
        while u < n
            invariant
                n == adj.len(),
                m == adj.deep_view(),
                all_connected(m),
                s < n,
                u <= n,
                dist.len() == n,
                before <= diam < n,
                forall|x: int| 0 <= x < n ==> -1 <= #[trigger] dist@[x] < n,
                forall|x: int|
                    0 <= x < n ==> (#[trigger] dist@[x] == -1 <==> !reachable(m, s as int, x)),
                forall|x: int|
                    0 <= x < n && #[trigger] dist@[x] >= 0 ==> is_distance(
                        m,
                        s as int,
                        x,
                        dist@[x] as int,
                    ),
                forall|x: int| 0 <= x < u ==> #[trigger] dist@[x] <= diam,
                exists|a: int, b: int|
                    0 <= a < n && 0 <= b < n && #[trigger] is_distance(m, a, b, diam as int),
            decreases n - u,
        {
            if dist[u] > diam {
                diam = dist[u];
                proof {
                    assert(reachable(m, s as int, u as int));
                    assert(is_distance(m, s as int, u as int, diam as int));
                }
            }
            u = u + 1;
        }
        proof {
            assert forall|a: int, b: int| 0 <= a < s + 1 && 0 <= b < n implies #[trigger] within(
                m,
                a,
                b,
                diam as int,
            ) by {
                if a == s {
                    assert(reachable(m, s as int, b));
                    assert(walk(m, s as int, b, dist@[b] as int));
                } else {
                    assert(within(m, a, b, before as int));
                    let j = choose|j: int| j <= before && #[trigger] walk(m, a, b, j);
                    assert(walk(m, a, b, j));
                }
            }
        }
        s = s + 1;
    }
    diam
}

/// Every two vertices that have an edge reach each other: the graph is
/// connected once its isolated vertices are set aside.
pub open spec fn edges_connected(m: Seq<Seq<bool>>) -> bool {
    forall|s: int, t: int|
        0 <= s < m.len() && 0 <= t < m.len() && degree_list(m)[s] > 0 && degree_list(m)[t] > 0
            ==> #[trigger] reachable(m, s, t)
}

/// Whether the vertices that have an edge all reach each other, given the
/// degrees: a search from the first such vertex must reach the others.
pub fn are_edges_connected(adj: &Vec<Vec<bool>>, degs: &Vec<u32>) -> (connected: bool)
    requires
        is_square(adj.deep_view()),
        is_symmetric(adj.deep_view()),
        adj.len() < i64::MAX,
        degs@ == degree_list(adj.deep_view()),
    ensures
        connected == edges_connected(adj.deep_view()),
{
    let ghost m = adj.deep_view();
    let n = adj.len();
    let mut s: usize = 0;
    while s < n && degs[s] == 0
        invariant
            n == adj.len(),
            degs@ == degree_list(m),
            m == adj.deep_view(),
            s <= n,
            forall|i: int| 0 <= i < s ==> #[trigger] degs@[i] == 0,
        decreases n - s,
    {
        s = s + 1;
    }
    if s == n {
        assert forall|a: int, b: int|
            0 <= a < m.len() && 0 <= b < m.len() && degree_list(m)[a] > 0 && degree_list(m)[b]
                > 0 implies #[trigger] reachable(m, a, b) by {
            assert(degs@[a] == 0);
        }
        return true;
    }
    let dist = bfs_distances(s, adj);
    let mut i: usize = 0;
    while i < n
        invariant
            n == adj.len(),
            degs@ == degree_list(m),
            m == adj.deep_view(),
            s < n,
            degs@[s as int] > 0,
            i <= n,
            dist.len() == n,
            forall|u: int|
                0 <= u < n ==> (#[trigger] dist@[u] == -1 <==> !reachable(m, s as int, u)),
            forall|j: int| 0 <= j < i && #[trigger] degs@[j] > 0 ==> dist@[j] != -1,
        decreases n - i,
    {
        if degs[i] > 0 && dist[i] == -1 {
            assert(!reachable(m, s as int, i as int));
            return false;
        }
        i = i + 1;
    }
    assert forall|a: int, b: int|
        0 <= a < m.len() && 0 <= b < m.len() && degree_list(m)[a] > 0 && degree_list(m)[b]
            > 0 implies #[trigger] reachable(m, a, b) by {
        assert(degs@[a] > 0 && degs@[b] > 0);
        assert(dist@[a] != -1 && dist@[b] != -1);
        lemma_reachable_symmetric(m, s as int, a);
        lemma_reachable_transitive(m, a, s as int, b);
    }
    true
}

} // verus!
