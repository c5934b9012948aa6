//! Exact branch-and-bound searches: largest independent set and largest
//! clique.
use vstd::prelude::*;
use crate::coloring::is_proper_coloring;
use crate::walks::{
    is_bipartite_matrix, is_loopless, is_simple_graph, is_square, is_symmetric, is_two_coloring,
};

verus! {

broadcast use {vstd::set_lib::group_set_properties, vstd::seq_lib::seq_to_set_is_finite};

/// No two distinct members of `s` are joined.
pub open spec fn is_independent_set(m: Seq<Seq<bool>>, s: Set<usize>) -> bool {
    forall|a: usize, b: usize|
        s.contains(a) && s.contains(b) && a != b ==> !#[trigger] m[a as int][b as int]
}

/// Every two distinct members of `s` are joined.
pub open spec fn is_clique_set(m: Seq<Seq<bool>>, s: Set<usize>) -> bool {
    forall|a: usize, b: usize|
        s.contains(a) && s.contains(b) && a != b ==> #[trigger] m[a as int][b as int]
}

/// `k` is the size of a largest independent set made of members of `pool`.
pub open spec fn is_independence_number(m: Seq<Seq<bool>>, pool: Set<usize>, k: nat) -> bool {
    &&& exists|s: Set<usize>|
        s.subset_of(pool) && #[trigger] is_independent_set(m, s) && s.finite() && s.len() == k
    &&& forall|s: Set<usize>|
        s.subset_of(pool) && #[trigger] is_independent_set(m, s) ==> s.len() <= k
}

/// `k` is the size of a largest clique made of members of `pool`.
pub open spec fn is_clique_number(m: Seq<Seq<bool>>, pool: Set<usize>, k: nat) -> bool {
    &&& exists|s: Set<usize>|
        s.subset_of(pool) && #[trigger] is_clique_set(m, s) && s.finite() && s.len() == k
    &&& forall|s: Set<usize>| s.subset_of(pool) && #[trigger] is_clique_set(m, s) ==> s.len() <= k
}

/// The candidates `u` with `m[v][u] == adjacent`, in their order.
fn filter_by_adjacency(adj: &Vec<Vec<bool>>, v: usize, cands: &[usize], adjacent: bool) -> (kept:
    Vec<usize>)
    requires
        is_square(adj.deep_view()),
        v < adj.len(),
        forall|i: int| 0 <= i < cands@.len() ==> #[trigger] cands@[i] < adj.len(),
        cands@.no_duplicates(),
    ensures
        kept.len() <= cands@.len(),
        kept@.no_duplicates(),
        forall|i: int| 0 <= i < kept.len() ==> #[trigger] kept@[i] < adj.len(),
        forall|x: usize|
            #[trigger] kept@.contains(x) <==> (cands@.contains(x) && adj.deep_view()[v as int][x as int]
                == adjacent),
{
    let ghost m = adj.deep_view();
    let n = adj.len();
    assert(adj@[v as int]@.len() == n) by {
        assert(m[v as int].len() == n);
    }
    let mut kept: Vec<usize> = Vec::new();
    let mut i: usize = 0;
    while i < cands.len()
        invariant
            m == adj.deep_view(),
            n == adj.len(),
            v < n,
            adj@[v as int]@.len() == n,
            i <= cands@.len(),
            forall|k: int| 0 <= k < cands@.len() ==> #[trigger] cands@[k] < n,
            cands@.no_duplicates(),
            kept.len() <= i,
            kept@.no_duplicates(),
            forall|k: int| 0 <= k < kept.len() ==> #[trigger] kept@[k] < n,
            forall|x: usize|
                #[trigger] kept@.contains(x) <==> (cands@.take(i as int).contains(x) && m[v as int][x
                    as int] == adjacent),
        decreases cands@.len() - i,
    {
        let u = cands[i];
        assert(adj@[v as int]@[u as int] == m[v as int][u as int]);
        let ghost before = kept@;
        if adj[v][u] == adjacent {
            kept.push(u);
            proof {
                assert(!before.contains(u)) by {
                    if before.contains(u) {
                        let t0 = cands@.take(i as int);
                        let k = choose|k: int| 0 <= k < t0.len() && t0[k] == u;
                        assert(cands@[k] == cands@[i as int]);
                    }
                }
                assert forall|a: int, b: int|
                    0 <= a < kept@.len() && 0 <= b < kept@.len() && a != b implies kept@[a]
                    != kept@[b] by {
                    if a == kept@.len() - 1 {
                        assert(before.contains(kept@[b]));
                    } else if b == kept@.len() - 1 {
                        assert(before.contains(kept@[a]));
                    }
                }
            }
        }
        proof {
            let t0 = cands@.take(i as int);
            let t1 = cands@.take(i + 1);
            assert forall|x: usize|
                #[trigger] kept@.contains(x) <==> (t1.contains(x) && m[v as int][x as int]
                    == adjacent) by {
                if t1.contains(x) {
                    let k = choose|k: int| 0 <= k < t1.len() && t1[k] == x;
                    if k < i {
                        assert(t0[k] == x);
                    }
                }
                if t0.contains(x) {
                    let k = choose|k: int| 0 <= k < t0.len() && t0[k] == x;
                    assert(t1[k] == x);
                }
                if x == u {
                    assert(t1[i as int] == x);
                    if m[v as int][x as int] == adjacent {
                        assert(kept@[kept@.len() - 1] == u);
                    }
                }
                if kept@.contains(x) && x != u {
                    let k = choose|k: int| 0 <= k < kept@.len() && kept@[k] == x;
                    assert(before[k] == x);
                }
                if before.contains(x) {
                    let k = choose|k: int| 0 <= k < before.len() && before[k] == x;
                    assert(kept@[k] == x);
                }
            }
        }
        i = i + 1;
    }
    assert(cands@.take(cands@.len() as int) =~= cands@);
    kept
}

/// The members of `pool` are those of `cands`, where `cands` starts at
/// `first` and continues with `rest`.
proof fn lemma_split_first(cands: Seq<usize>, rest: Seq<usize>)
    requires
        cands.len() > 0,
        rest == cands.subrange(1, cands.len() as int),
        cands.no_duplicates(),
    ensures
        cands.to_set() == rest.to_set().insert(cands[0]),
        !rest.to_set().contains(cands[0]),
        rest.no_duplicates(),
{
    assert(cands.to_set() =~= rest.to_set().insert(cands[0])) by {
        assert forall|x: usize| cands.to_set().contains(x) implies rest.to_set().insert(
            cands[0],
        ).contains(x) by {
            let k = choose|k: int| 0 <= k < cands.len() && cands[k] == x;
            if k > 0 {
                assert(rest[k - 1] == x);
            }
        }
        assert forall|x: usize| rest.to_set().insert(cands[0]).contains(x) implies cands.to_set().contains(
            x,
        ) by {
            if x != cands[0] {
                let k = choose|k: int| 0 <= k < rest.len() && rest[k] == x;
                assert(cands[k + 1] == x);
            } else {
                assert(cands[0] == x);
            }
        }
    }
    if rest.to_set().contains(cands[0]) {
        let k = choose|k: int| 0 <= k < rest.len() && rest[k] == cands[0];
        assert(cands[k + 1] == cands[0]);
    }
}

/// The size of a largest independent set among `candidates`, plus `size`:
/// branch on the first candidate, once taken (dropping its neighbours) and
/// once left out.
pub fn mis(adj: &Vec<Vec<bool>>, candidates: &[usize], size: u32) -> (best: u32)
    requires
        is_square(adj.deep_view()),
        is_symmetric(adj.deep_view()),
        forall|i: int| 0 <= i < candidates@.len() ==> #[trigger] candidates@[i] < adj.len(),
        candidates@.no_duplicates(),
        size + candidates@.len() <= u32::MAX,
    ensures
        size <= best <= size + candidates@.len(),
        is_independence_number(adj.deep_view(), candidates@.to_set(), (best - size) as nat),
    decreases candidates@.len(),
{
    let ghost m = adj.deep_view();
    if candidates.len() == 0 {
        proof {
            let e = Set::<usize>::empty();
            assert(e.subset_of(candidates@.to_set()) && is_independent_set(m, e));
            assert forall|s: Set<usize>|
                s.subset_of(candidates@.to_set()) && #[trigger] is_independent_set(m, s) implies s.len()
                <= 0 by {
                assert(s =~= e);
            }
        }
        return size;
    }
    let v = candidates[0];
    let rest = &candidates[1..candidates.len()];
    proof {
        lemma_split_first(candidates@, rest@);
    }
    let with_cands = filter_by_adjacency(adj, v, rest, false);
    let with_v = mis(adj, with_cands.as_slice(), size + 1);
    let without_v = mis(adj, rest, size);
    let ghost pool = candidates@.to_set();
    let ghost rest_pool = rest@.to_set();
    let ghost with_pool = with_cands@.to_set();
    let best = if with_v >= without_v {
        with_v
    } else {
        without_v
    };
    proof {
        let k = (best - size) as nat;
        // A largest set exists among the two branches.
        if with_v >= without_v {
            let s = choose|s: Set<usize>|
                s.subset_of(with_pool) && #[trigger] is_independent_set(m, s) && s.finite() && s.len()
                    == (with_v - size - 1) as nat;
            assert(!s.contains(v)) by {
                if s.contains(v) {
                    assert(with_pool.contains(v));
                    assert(with_cands@.contains(v));
                }
            }
            let t = s.insert(v);
            assert forall|a: usize, b: usize|
                t.contains(a) && t.contains(b) && a != b implies !#[trigger] m[a as int][b as int] by {
                if a == v {
                    assert(with_cands@.contains(b));
                } else if b == v {
                    assert(with_cands@.contains(a));
                    assert(m[a as int][b as int] == m[b as int][a as int]);
                }
            }
            assert(is_independent_set(m, t));
            assert forall|x: usize| t.contains(x) implies pool.contains(x) by {
                if x != v {
                    assert(with_cands@.contains(x));
                }
            }
            assert(t.subset_of(pool) && t.finite() && t.len() == k);
        } else {
            let s = choose|s: Set<usize>|
                s.subset_of(rest_pool) && #[trigger] is_independent_set(m, s) && s.finite() && s.len()
                    == (without_v - size) as nat;
            assert(s.subset_of(pool) && is_independent_set(m, s));
        }
        // No independent set is larger.
        assert forall|s: Set<usize>| s.subset_of(pool) && #[trigger] is_independent_set(m, s) implies s.len()
            <= k by {
            vstd::set_lib::lemma_len_subset(s, pool);
            if s.contains(v) {
                let t = s.remove(v);
                assert forall|x: usize| t.contains(x) implies with_pool.contains(x) by {
                    assert(rest_pool.contains(x));
                    assert(!m[v as int][x as int]);
                    assert(with_cands@.contains(x));
                }
                assert(is_independent_set(m, t));
                assert(t.len() <= (with_v - size - 1) as nat);
            } else {
                assert(s.subset_of(rest_pool));
                assert(is_independent_set(m, s));
            }
        }
    }
    best
}

/// A set of candidates that avoids the first `i` of them has at most
/// `c.len() - i` members.
proof fn lemma_avoiding_prefix(c: Seq<usize>, i: int, s: Set<usize>)
    requires
        0 <= i <= c.len(),
        s.subset_of(c.to_set()),
        !(exists|j: int| 0 <= j < i && s.contains(#[trigger] c[j])),
    ensures
        s.finite(),
        s.len() <= c.len() - i,
{
    let tail = c.subrange(i, c.len() as int);
    assert forall|x: usize| s.contains(x) implies tail.to_set().contains(x) by {
        let k = choose|k: int| 0 <= k < c.len() && c[k] == x;
        if k < i {
            assert(s.contains(c[k]));
        }
        assert(tail[k - i] == x);
    }
    tail.lemma_cardinality_of_set();
    vstd::set_lib::lemma_len_subset(s, tail.to_set());
}

/// The size of a largest clique among `candidates`, plus `size`: try each
/// candidate in turn as the first member, continuing with its later
/// neighbours, and stop once the candidates left cannot beat the best found.
pub fn max_clique(adj: &Vec<Vec<bool>>, candidates: &[usize], size: u32) -> (best: u32)
    requires
        is_square(adj.deep_view()),
        is_symmetric(adj.deep_view()),
        forall|i: int| 0 <= i < candidates@.len() ==> #[trigger] candidates@[i] < adj.len(),
        candidates@.no_duplicates(),
        size + candidates@.len() <= u32::MAX,
    ensures
        size <= best <= size + candidates@.len(),
        is_clique_number(adj.deep_view(), candidates@.to_set(), (best - size) as nat),
    decreases candidates@.len(),
{
    let ghost m = adj.deep_view();
    let ghost c = candidates@;
    let ghost pool = c.to_set();
    let len = candidates.len();
    let mut best = size;
    proof {
        let e = Set::<usize>::empty();
        assert(e.subset_of(pool) && is_clique_set(m, e) && e.finite() && e.len() == 0);
    }
    let mut i: usize = 0;
    loop
        invariant
            m == adj.deep_view(),
            c == candidates@,
            pool == c.to_set(),
            len == c.len(),
            is_square(m),
            is_symmetric(m),
            forall|j: int| 0 <= j < c.len() ==> #[trigger] c[j] < adj.len(),
            c.no_duplicates(),
            size + len <= u32::MAX,
            i <= len,
            size <= best <= size + len,
            exists|s: Set<usize>|
                s.subset_of(pool) && #[trigger] is_clique_set(m, s) && s.finite() && s.len() == (best
                    - size) as nat,
            forall|s: Set<usize>|
                s.subset_of(pool) && #[trigger] is_clique_set(m, s) && (exists|j: int|
                    0 <= j < i && s.contains(#[trigger] c[j])) ==> s.len() <= (best - size) as nat,
        ensures
            size <= best <= size + len,
            exists|s: Set<usize>|
                s.subset_of(pool) && #[trigger] is_clique_set(m, s) && s.finite() && s.len() == (best
                    - size) as nat,
            forall|s: Set<usize>|
                s.subset_of(pool) && #[trigger] is_clique_set(m, s) ==> s.len() <= (best
                    - size) as nat,
        decreases len - i,
    {
        if i >= len || size + (len - i) as u32 <= best {
            proof {
                // Every clique that avoids the first `i` candidates lies among
                // the other `len - i`, so it is no larger than what was found.
                assert forall|s: Set<usize>|
                    s.subset_of(pool) && #[trigger] is_clique_set(m, s) implies s.len() <= (best
                    - size) as nat by {
                    if !(exists|j: int| 0 <= j < i && s.contains(#[trigger] c[j])) {
                        lemma_avoiding_prefix(c, i as int, s);
                    }
                }
            }
            break;
        }
        let v = candidates[i];
        let later = &candidates[i + 1..len];
        proof {
            assert forall|a: int, b: int|
                0 <= a < later@.len() && 0 <= b < later@.len() && a != b implies later@[a]
                != later@[b] by {
                assert(later@[a] == c[a + i + 1] && later@[b] == c[b + i + 1]);
            }
            assert forall|j: int| 0 <= j < later@.len() implies #[trigger] later@[j] < adj.len() by {
                assert(later@[j] == c[j + i + 1]);
            }
        }
        let new_cands = filter_by_adjacency(adj, v, later, true);
        let result = max_clique(adj, new_cands.as_slice(), size + 1);
        let ghost new_pool = new_cands@.to_set();
        let ghost old_best = best;
        if result > best {
            best = result;
            proof {
                let s = choose|s: Set<usize>|
                    s.subset_of(new_pool) && #[trigger] is_clique_set(m, s) && s.finite() && s.len()
                        == (result - size - 1) as nat;
                assert(!s.contains(v)) by {
                    if s.contains(v) {
                        assert(new_cands@.contains(v));
                        assert(later@.contains(v));
                        let k = choose|k: int| 0 <= k < later@.len() && later@[k] == v;
                        assert(c[k + i + 1] == c[i as int]);
                    }
                }
                let t = s.insert(v);
                assert forall|a: usize, b: usize|
                    t.contains(a) && t.contains(b) && a != b implies #[trigger] m[a as int][b
                    as int] by {
                    if a == v {
                        assert(new_cands@.contains(b));
                    } else if b == v {
                        assert(new_cands@.contains(a));
                        assert(m[a as int][b as int] == m[b as int][a as int]);
                    }
                }
                assert(is_clique_set(m, t));
                assert forall|x: usize| t.contains(x) implies pool.contains(x) by {
                    if x != v {
                        assert(new_cands@.contains(x));
                        let k = choose|k: int| 0 <= k < later@.len() && later@[k] == x;
                        assert(c[k + i + 1] == x);
                    } else {
                        assert(c[i as int] == x);
                    }
                }
                assert(t.subset_of(pool) && t.finite() && t.len() == (best - size) as nat);
            }
        }
        proof {
            assert forall|s: Set<usize>|
                s.subset_of(pool) && #[trigger] is_clique_set(m, s) && (exists|j: int|
                    0 <= j < i + 1 && s.contains(#[trigger] c[j])) implies s.len() <= (best
                - size) as nat by {
                if exists|j: int| 0 <= j < i && s.contains(#[trigger] c[j]) {
                } else {
                    assert(s.contains(v));
                    vstd::set_lib::lemma_len_subset(s, pool);
                    let t = s.remove(v);
                    assert forall|x: usize| t.contains(x) implies new_pool.contains(x) by {
                        let k = choose|k: int| 0 <= k < c.len() && c[k] == x;
                        if k < i {
                            assert(s.contains(c[k]));
                        }
                        assert(k > i);
                        assert(later@[k - i - 1] == x);
                        assert(m[v as int][x as int]);
                        assert(new_cands@.contains(x));
                    }
                    assert(is_clique_set(m, t));
                    assert(t.len() <= (result - size - 1) as nat);
                }
            }
        }
        i = i + 1;
    }
    best
}

/// Every edge has at least one end in `c`.
pub open spec fn is_vertex_cover(m: Seq<Seq<bool>>, c: Set<usize>) -> bool {
    forall|a: usize, b: usize|
        a < m.len() && b < m.len() && #[trigger] m[a as int][b as int] ==> c.contains(a)
            || c.contains(b)
}

/// The vertices `0 .. n`.
pub open spec fn all_vertices(n: nat) -> Set<usize> {
    Set::new(|x: usize| x < n)
}

/// `k` is the size of a smallest vertex cover.
pub open spec fn is_vertex_cover_number(m: Seq<Seq<bool>>, k: nat) -> bool {
    &&& exists|c: Set<usize>|
        c.subset_of(all_vertices(m.len())) && #[trigger] is_vertex_cover(m, c) && c.finite() && c.len()
            == k
    &&& forall|c: Set<usize>|
        c.subset_of(all_vertices(m.len())) && #[trigger] is_vertex_cover(m, c) ==> k <= c.len()
}

/// The vertices `0 .. n` are `n` in number.
pub proof fn lemma_all_vertices_len(n: usize)
    ensures
        all_vertices(n as nat).finite(),
        all_vertices(n as nat).len() == n,
    decreases n,
{
    if n == 0 {
        assert(all_vertices(0) =~= Set::empty());
    } else {
        lemma_all_vertices_len((n - 1) as usize);
        assert(all_vertices(n as nat) =~= all_vertices((n - 1) as nat).insert((n - 1) as usize));
    }
}

/// The vertices outside a largest independent set form a smallest vertex
/// cover, so the two sizes add up to the number of vertices.
pub proof fn lemma_cover_complements_independent(m: Seq<Seq<bool>>, k: nat)
    requires
        is_loopless(m),
        m.len() <= usize::MAX,
        is_independence_number(m, all_vertices(m.len()), k),
    ensures
        k <= m.len(),
        is_vertex_cover_number(m, (m.len() - k) as nat),
{
    let n = m.len();
    let all = all_vertices(n);
    lemma_all_vertices_len(n as usize);
    let s = choose|s: Set<usize>|
        s.subset_of(all) && #[trigger] is_independent_set(m, s) && s.finite() && s.len() == k;
    vstd::set_lib::lemma_len_subset(s, all);
    let c = all.difference(s);
    assert(all.intersect(s) =~= s);
    assert(c.len() == n - k);
    assert forall|a: usize, b: usize|
        a < m.len() && b < m.len() && #[trigger] m[a as int][b as int] implies c.contains(a)
        || c.contains(b) by {
        if a == b {
            assert(!m[a as int][a as int]);
        }
    }
    assert(c.subset_of(all) && is_vertex_cover(m, c));
    assert forall|d: Set<usize>| d.subset_of(all) && #[trigger] is_vertex_cover(m, d) implies (n
        - k) as nat <= d.len() by {
        let t = all.difference(d);
        assert(is_independent_set(m, t));
        assert(t.subset_of(all));
        vstd::set_lib::lemma_len_subset(d, all);
        assert(all.intersect(d) =~= d);
        assert(t.len() == n - d.len());
    }
}

/// A clique needs a colour per vertex: when a proper colouring uses `c`
/// colours, no clique has more than `c` vertices.
pub proof fn lemma_clique_at_most_colors(
    m: Seq<Seq<bool>>,
    cols: Seq<nat>,
    c: nat,
    pool: Set<usize>,
    k: nat,
)
    requires
        is_proper_coloring(m, cols, c),
        forall|x: usize| #[trigger] pool.contains(x) ==> x < m.len(),
        is_clique_number(m, pool, k),
    ensures
        k <= c,
{
    let s = choose|s: Set<usize>|
        s.subset_of(pool) && #[trigger] is_clique_set(m, s) && s.finite() && s.len() == k;
    let f = |x: usize| cols[x as int] as int;
    assert forall|x1: usize, x2: usize|
        s.contains(x1) && s.contains(x2) && #[trigger] f(x1) == #[trigger] f(x2) implies x1 == x2 by {
        if x1 != x2 {
            assert(pool.contains(x1) && pool.contains(x2));
            assert(m[x1 as int][x2 as int]);
        }
    }
    let img = s.map(f);
    vstd::set_lib::lemma_map_size(s, img, f);
    let colors = vstd::set_lib::set_int_range(1, c as int + 1);
    vstd::set_lib::lemma_int_range(1, c as int + 1);
    assert forall|d: int| img.contains(d) implies colors.contains(d) by {
        let x = choose|x: usize| s.contains(x) && f(x) == d;
        assert(pool.contains(x));
        assert(1 <= cols[x as int] <= c);
    }
    vstd::set_lib::lemma_len_subset(img, colors);
}

/// In a bipartite graph with an edge, the largest clique has exactly two
/// vertices: an edge is one, and three pairwise joined vertices cannot lie
/// on two sides.
pub proof fn lemma_bipartite_clique_two(m: Seq<Seq<bool>>, k: nat)
    requires
        is_simple_graph(m),
        is_bipartite_matrix(m),
        exists|a: int, b: int| 0 <= a < m.len() && 0 <= b < m.len() && #[trigger] m[a][b],
        m.len() <= usize::MAX,
        is_clique_number(m, all_vertices(m.len()), k),
    ensures
        k == 2,
{
    let n = m.len();
    let (a, b) = choose|a: int, b: int| 0 <= a < n && 0 <= b < n && #[trigger] m[a][b];
    assert(a != b);
    let pair = set![a as usize, b as usize];
    assert(pair.len() == 2) by {
        assert(set![a as usize].len() == 1);
    }
    assert forall|x: usize, y: usize|
        pair.contains(x) && pair.contains(y) && x != y implies #[trigger] m[x as int][y as int] by {
        if x == a as usize {
            assert(y == b as usize);
        } else {
            assert(x == b as usize && y == a as usize);
        }
    }
    assert(pair.subset_of(all_vertices(n)));
    assert(is_clique_set(m, pair));
    let s = choose|s: Set<usize>|
        s.subset_of(all_vertices(n)) && #[trigger] is_clique_set(m, s) && s.finite() && s.len() == k;
    if k >= 3 {
        let col = choose|col: Seq<bool>| #[trigger] is_two_coloring(m, col);
        let x = s.choose();
        let s1 = s.remove(x);
        let y = s1.choose();
        let s2 = s1.remove(y);
        let z = s2.choose();
        assert(s.contains(x) && s1.contains(y) && s2.contains(z));
        assert(x != y && y != z && x != z);
        assert(m[x as int][y as int] && m[y as int][z as int] && m[x as int][z as int]);
        assert(col[x as int] != col[y as int]);
        assert(col[y as int] != col[z as int]);
        assert(col[x as int] != col[z as int]);
    }
}

} // verus!
