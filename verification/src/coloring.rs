//! Greedy (first-fit) vertex colouring.
use vstd::prelude::*;
use crate::degrees::count_true;
use crate::walks::{is_loopless, is_square, is_symmetric};

verus! {

/// Colour `c` is already worn by a neighbour of `v` that comes before `v`.
pub open spec fn color_taken(m: Seq<Seq<bool>>, cols: Seq<nat>, v: int, c: nat) -> bool {
    exists|u: int| 0 <= u < v && #[trigger] m[v][u] && cols[u] == c
}

/// The smallest colour, from `c` on, that no earlier neighbour of `v` wears
/// (colour `v + 1` is always free, as earlier vertices wear at most `v`).
pub open spec fn first_free_color(m: Seq<Seq<bool>>, cols: Seq<nat>, v: int, c: nat) -> nat
    decreases v + 1 - c,
{
    if c > v || !color_taken(m, cols, v, c) {
        c
    } else {
        first_free_color(m, cols, v, c + 1)
    }
}

/// First-fit colouring of the first `k` vertices in index order: each vertex
/// gets the smallest positive colour not worn by an earlier neighbour.
pub open spec fn greedy_colors(m: Seq<Seq<bool>>, k: int) -> Seq<nat>
    decreases k,
{
    if k <= 0 {
        seq![]
    } else {
        let earlier = greedy_colors(m, k - 1);
        earlier.push(first_free_color(m, earlier, k - 1, 1))
    }
}

/// The largest entry of a sequence (0 when it is empty).
pub open spec fn seq_max(s: Seq<nat>) -> nat
    decreases s.len(),
{
    if s.len() == 0 {
        0
    } else {
        let rest = seq_max(s.drop_last());
        if s.last() > rest {
            s.last()
        } else {
            rest
        }
    }
}

/// The number of colours the first-fit colouring uses.
pub open spec fn greedy_color_count(m: Seq<Seq<bool>>) -> nat {
    seq_max(greedy_colors(m, m.len() as int))
}

/// `cols` gives joined vertices different colours, all between 1 and `k`.
pub open spec fn is_proper_coloring(m: Seq<Seq<bool>>, cols: Seq<nat>, k: nat) -> bool {
    &&& cols.len() == m.len()
    &&& forall|u: int| 0 <= u < m.len() ==> 1 <= #[trigger] cols[u] <= k
    &&& forall|u: int, v: int|
        0 <= u < m.len() && 0 <= v < m.len() && #[trigger] m[u][v] ==> cols[u] != cols[v]
}

proof fn lemma_first_free_bounds(m: Seq<Seq<bool>>, cols: Seq<nat>, v: int, c: nat)
    requires
        0 <= v,
        1 <= c <= v + 1,
        forall|u: int| 0 <= u < v ==> 1 <= #[trigger] cols[u] <= u + 1,
    ensures
        c <= first_free_color(m, cols, v, c) <= v + 1,
        !color_taken(m, cols, v, first_free_color(m, cols, v, c)),
        forall|d: nat|
            c <= d < first_free_color(m, cols, v, c) ==> #[trigger] color_taken(m, cols, v, d),
    decreases v + 1 - c,
{
    if c <= v && color_taken(m, cols, v, c) {
        lemma_first_free_bounds(m, cols, v, c + 1);
    } else if c > v {
        assert(!color_taken(m, cols, v, c));
    }
}

/// The first-fit colours: vertex `u` gets a colour between 1 and `u + 1`,
/// different from those of its earlier neighbours.
pub proof fn lemma_greedy_colors_shape(m: Seq<Seq<bool>>, k: int)
    requires
        0 <= k,
    ensures
        greedy_colors(m, k).len() == k,
        forall|u: int| 0 <= u < k ==> 1 <= #[trigger] greedy_colors(m, k)[u] <= u + 1,
        forall|u: int, v: int|
            0 <= u < v < k && #[trigger] m[v][u] ==> greedy_colors(m, k)[u] != greedy_colors(
                m,
                k,
            )[v],
    decreases k,
{
    if k > 0 {
        lemma_greedy_colors_shape(m, k - 1);
        let earlier = greedy_colors(m, k - 1);
        lemma_first_free_bounds(m, earlier, k - 1, 1);
        let c = first_free_color(m, earlier, k - 1, 1);
        assert forall|u: int, v: int|
            0 <= u < v < k && #[trigger] m[v][u] implies greedy_colors(m, k)[u] != greedy_colors(
                m,
                k,
            )[v] by {
            if v == k - 1 {
                if earlier[u] == c {
                    assert(color_taken(m, earlier, k - 1, c));
                }
            }
        }
    }
}

proof fn lemma_seq_max_bounds(s: Seq<nat>)
    ensures
        forall|i: int| 0 <= i < s.len() ==> #[trigger] s[i] <= seq_max(s),
        s.len() > 0 ==> exists|i: int| 0 <= i < s.len() && #[trigger] s[i] == seq_max(s),
    decreases s.len(),
{
    if s.len() > 0 {
        lemma_seq_max_bounds(s.drop_last());
        assert forall|i: int| 0 <= i < s.len() implies #[trigger] s[i] <= seq_max(s) by {
            if i < s.len() - 1 {
                assert(s[i] == s.drop_last()[i]);
            }
        }
        if s.last() <= seq_max(s.drop_last()) && s.len() > 1 {
            let i = choose|i: int|
                0 <= i < s.drop_last().len() && #[trigger] s.drop_last()[i] == seq_max(
                    s.drop_last(),
                );
            assert(s[i] == seq_max(s));
        } else {
            assert(s[s.len() - 1] == seq_max(s));
        }
    }
}

/// In an undirected graph the first-fit colouring is proper and uses
/// exactly `greedy_color_count` colours, so that many colours suffice.
pub proof fn lemma_greedy_coloring_is_proper(m: Seq<Seq<bool>>)
    requires
        is_symmetric(m),
        is_loopless(m),
    ensures
        is_proper_coloring(m, greedy_colors(m, m.len() as int), greedy_color_count(m)),
{
    let n = m.len() as int;
    lemma_greedy_colors_shape(m, n);
    let cols = greedy_colors(m, n);
    lemma_seq_max_bounds(cols);
    assert forall|u: int, v: int|
        0 <= u < n && 0 <= v < n && #[trigger] m[u][v] implies cols[u] != cols[v] by {
        if u < v {
            assert(m[v][u]);
        }
    }
}

/// The number of colours used by the first-fit colouring, vertices taken in
/// index order.
pub fn greedy_chromatic(adj: &Vec<Vec<bool>>) -> (k: u32)
    requires
        is_square(adj.deep_view()),
        adj.len() <= u32::MAX,
    ensures
        k == greedy_color_count(adj.deep_view()),
{
    let n = adj.len();
    let ghost m = adj.deep_view();
    if n == 0 {
        return 0;
    }
    let mut colors: Vec<u32> = vec![0u32; n];
    let mut v: usize = 0;
    while v < n
        invariant
            n == adj.len(),
            m == adj.deep_view(),
            is_square(m),
            n <= u32::MAX,
            v <= n,
            colors.len() == n,
            forall|i: int| 0 <= i < v ==> #[trigger] colors@[i] as nat == greedy_colors(m, v as int)[i],
            forall|i: int| v <= i < n ==> #[trigger] colors@[i] == 0,
        decreases n - v,
    {
        proof {
            lemma_greedy_colors_shape(m, v as int);
        }
        let ghost earlier = greedy_colors(m, v as int);
        assert(adj@[v as int]@.len() == n) by {
            assert(m[v as int].len() == n);
        }
        let mut used: Vec<bool> = vec![false; v + 1];
        let mut u: usize = 0;
        while u < n
            invariant
                n == adj.len(),
                m == adj.deep_view(),
                v < n,
                u <= n,
                colors.len() == n,
                adj@[v as int]@.len() == n,
                used.len() == v + 1,
                earlier.len() == v,
                forall|i: int| 0 <= i < v ==> #[trigger] colors@[i] as nat == earlier[i],
                forall|i: int| v <= i < n ==> #[trigger] colors@[i] == 0,
                forall|i: int| 0 <= i < v ==> 1 <= #[trigger] earlier[i] <= i + 1,
                forall|c: int|
                    1 <= c < v + 1 ==> (#[trigger] used@[c] <==> exists|w: int|
                        0 <= w < u && w < v && #[trigger] m[v as int][w] && earlier[w] == c),
            decreases n - u,
        {
            assert(adj@[v as int]@[u as int] == m[v as int][u as int]);
            if adj[v][u] && colors[u] != 0 {
                let c = colors[u] as usize;
                used.set(c, true);
            }
            u = u + 1;
        }
        let mut c: usize = 1;
        while c <= v && used[c]
            invariant
                1 <= c <= v + 1,
                used.len() == v + 1,
                earlier.len() == v,
                forall|i: int| 0 <= i < v ==> 1 <= #[trigger] earlier[i] <= i + 1,
                forall|d: int|
                    1 <= d < v + 1 ==> (#[trigger] used@[d] <==> color_taken(
                        m,
                        earlier,
                        v as int,
                        d as nat,
                    )),
                first_free_color(m, earlier, v as int, 1) == first_free_color(
                    m,
                    earlier,
                    v as int,
                    c as nat,
                ),
            decreases v + 1 - c,
        {
            proof {
                let w = choose|w: int| 0 <= w < v && #[trigger] m[v as int][w] && earlier[w] == c;
            }
            c = c + 1;
        }
        colors.set(v, c as u32);
        proof {
            assert(greedy_colors(m, v + 1) =~= earlier.push(c as nat));
        }
        v = v + 1;
    }
    proof {
        lemma_greedy_colors_shape(m, n as int);
    }
    let ghost cols = greedy_colors(m, n as int);
    let mut best: u32 = 0;
    let mut i: usize = 0;
    while i < n
        invariant
            n == adj.len(),
            colors.len() == n,
            cols.len() == n,
            i <= n,
            forall|j: int| 0 <= j < n ==> #[trigger] colors@[j] as nat == cols[j],
            best as nat == seq_max(cols.take(i as int)),
        decreases n - i,
    {
        assert(cols.take(i + 1).drop_last() =~= cols.take(i as int));
        if colors[i] > best {
            best = colors[i];
        }
        i = i + 1;
    }
    assert(cols.take(n as int) =~= cols);
    best
}

/// The positions of the `true` entries of a row are `count_true` in number.
proof fn lemma_count_true_set(row: Seq<bool>)
    ensures
        Set::new(|j: int| 0 <= j < row.len() && row[j]).finite(),
        Set::new(|j: int| 0 <= j < row.len() && row[j]).len() == count_true(row),
    decreases row.len(),
{
    let set = Set::new(|j: int| 0 <= j < row.len() && row[j]);
    if row.len() == 0 {
        assert(set =~= Set::empty());
    } else {
        let init = row.drop_last();
        lemma_count_true_set(init);
        let before = Set::new(|j: int| 0 <= j < init.len() && init[j]);
        let last = row.len() - 1;
        if row[last] {
            assert(set =~= before.insert(last));
        } else {
            assert(set =~= before);
        }
    }
}

/// First fit never needs more than one colour beyond the vertex's degree:
/// each smaller colour is worn by a different earlier neighbour.
proof fn lemma_first_free_at_most_degree(m: Seq<Seq<bool>>, cols: Seq<nat>, v: int)
    requires
        is_square(m),
        0 <= v < m.len(),
        forall|u: int| 0 <= u < v ==> 1 <= #[trigger] cols[u] <= u + 1,
    ensures
        first_free_color(m, cols, v, 1) <= count_true(m[v]) + 1,
{
    let r = first_free_color(m, cols, v, 1);
    lemma_first_free_bounds(m, cols, v, 1);
    let row = m[v];
    let nb = Set::new(|u: int| 0 <= u < v && row[u]);
    let all_nb = Set::new(|j: int| 0 <= j < row.len() && row[j]);
    lemma_count_true_set(row);
    assert(nb.subset_of(all_nb));
    vstd::set_lib::lemma_len_subset(nb, all_nb);
    let f = |u: int| cols[u] as int;
    let img = nb.map(f);
    vstd::set_lib::lemma_map_size_bound(nb, img, f);
    let used = vstd::set_lib::set_int_range(1, r as int);
    vstd::set_lib::lemma_int_range(1, r as int);
    assert forall|d: int| used.contains(d) implies img.contains(d) by {
        assert(color_taken(m, cols, v, d as nat));
        let u = choose|u: int| 0 <= u < v && #[trigger] m[v][u] && cols[u] == d as nat;
        assert(nb.contains(u));
        assert(f(u) == d);
    }
    vstd::set_lib::lemma_len_subset(used, img);
}

/// Every vertex's first-fit colour is at most its degree plus one.
pub proof fn lemma_greedy_color_at_most_degree(m: Seq<Seq<bool>>, k: int)
    requires
        is_square(m),
        0 <= k <= m.len(),
    ensures
        forall|u: int| 0 <= u < k ==> #[trigger] greedy_colors(m, k)[u] <= count_true(m[u]) + 1,
    decreases k,
{
    if k > 0 {
        lemma_greedy_color_at_most_degree(m, k - 1);
        lemma_greedy_colors_shape(m, k - 1);
        let earlier = greedy_colors(m, k - 1);
        lemma_first_free_at_most_degree(m, earlier, k - 1);
        assert forall|u: int| 0 <= u < k implies #[trigger] greedy_colors(m, k)[u] <= count_true(
            m[u],
        ) + 1 by {
            if u < k - 1 {
                assert(greedy_colors(m, k)[u] == earlier[u]);
            }
        }
    }
}

/// First fit uses at least one colour on a graph with a vertex, and at most
/// one more than any bound on the degrees.
pub proof fn lemma_greedy_count_bounds(m: Seq<Seq<bool>>, max_degree: nat)
    requires
        is_square(m),
        forall|u: int| 0 <= u < m.len() ==> #[trigger] count_true(m[u]) <= max_degree,
    ensures
        m.len() > 0 ==> 1 <= greedy_color_count(m),
        greedy_color_count(m) <= max_degree + 1,
{
    let n = m.len() as int;
    let cols = greedy_colors(m, n);
    lemma_greedy_colors_shape(m, n);
    lemma_greedy_color_at_most_degree(m, n);
    lemma_seq_max_bounds(cols);
    if n > 0 {
        assert(cols[0] <= seq_max(cols));
        let i = choose|i: int| 0 <= i < cols.len() && #[trigger] cols[i] == seq_max(cols);
        assert(cols[i] <= count_true(m[i]) + 1);
    } else {
        assert(cols.len() == 0);
    }
}

} // verus!
