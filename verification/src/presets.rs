//! Named preset graphs: complete, cycle, path, star, wheel, Petersen,
//! complete bipartite and grid.
//!
//! A preset is built by adding its vertices (ids `0, 1, ..`) and then asking
//! `add_edge` for each pair of its edge list in turn; a pair that `add_edge`
//! refuses (a repeat, as in a cycle of two vertices) is skipped as it is
//! there. Only the structure is built here; the layout on the canvas is the
//! editor's.
use vstd::prelude::*;
use crate::graph::{Graph, GraphModel};

verus! {

broadcast use vstd::seq_lib::group_seq_properties;

/// The kinds of preset graph.
#[derive(PartialEq, Eq, Structural, Clone, Copy, Debug)]
pub enum Preset {
    Complete,
    Cycle,
    Path,
    Star,
    Wheel,
    Petersen,
    Bipartite,
    Grid,
}

/// The preset a name stands for.
pub open spec fn preset_named(name: Seq<char>) -> Option<Preset> {
    if name == "complete"@ {
        Some(Preset::Complete)
    } else if name == "cycle"@ {
        Some(Preset::Cycle)
    } else if name == "path"@ {
        Some(Preset::Path)
    } else if name == "star"@ {
        Some(Preset::Star)
    } else if name == "wheel"@ {
        Some(Preset::Wheel)
    } else if name == "petersen"@ {
        Some(Preset::Petersen)
    } else if name == "bipartite"@ {
        Some(Preset::Bipartite)
    } else if name == "grid"@ {
        Some(Preset::Grid)
    } else {
        None
    }
}

/// Whether two strings hold the same characters.
fn str_eq(a: &str, b: &str) -> (eq: bool)
    ensures
        eq == (a@ == b@),
{
    let n = a.unicode_len();
    if n != b.unicode_len() {
        return false;
    }
    let mut i: usize = 0;
    while i < n
        invariant
            n == a@.len(),
            n == b@.len(),
            i <= n,
            forall|j: int| 0 <= j < i ==> a@[j] == b@[j],
        decreases n - i,
    {
        if a.get_char(i) != b.get_char(i) {
            return false;
        }
        i = i + 1;
    }
    assert(a@ =~= b@);
    true
}

/// The preset named `name`, if any.
pub fn preset_from_name(name: &str) -> (preset: Option<Preset>)
    ensures
        preset == preset_named(name@),
{
    if str_eq(name, "complete") {
        Some(Preset::Complete)
    } else if str_eq(name, "cycle") {
        Some(Preset::Cycle)
    } else if str_eq(name, "path") {
        Some(Preset::Path)
    } else if str_eq(name, "star") {
        Some(Preset::Star)
    } else if str_eq(name, "wheel") {
        Some(Preset::Wheel)
    } else if str_eq(name, "petersen") {
        Some(Preset::Petersen)
    } else if str_eq(name, "bipartite") {
        Some(Preset::Bipartite)
    } else if str_eq(name, "grid") {
        Some(Preset::Grid)
    } else {
        None
    }
}

/// The number of vertices of a preset of size `k`.
pub open spec fn vertex_total(p: Preset, k: int) -> int {
    match p {
        Preset::Complete => k,
        Preset::Cycle => k,
        Preset::Path => k,
        Preset::Star => k + 1,
        Preset::Wheel => k + 1,
        Preset::Petersen => 10,
        Preset::Bipartite => 2 * k,
        Preset::Grid => k * k,
    }
}

/// The pairs `(i, j)` with `i < r` and `i < j < k`, row by row.
pub open spec fn complete_pairs(k: int, r: int) -> Seq<(u32, u32)>
    decreases r,
{
    if r <= 0 {
        seq![]
    } else {
        complete_pairs(k, r - 1) + Seq::new(
            (k - r) as nat,
            |t: int| ((r - 1) as u32, (r + t) as u32),
        )
    }
}

/// The pairs `(i, k + j)` with `i < r` and `j < k`, row by row.
pub open spec fn bipartite_pairs(k: int, r: int) -> Seq<(u32, u32)>
    decreases r,
{
    if r <= 0 {
        seq![]
    } else {
        bipartite_pairs(k, r - 1) + Seq::new(k as nat, |j: int| ((r - 1) as u32, (k + j) as u32))
    }
}

/// The pairs asked for at cell `idx` of a `k` by `k` grid: to its right
/// neighbour, then to the one below, where they exist.
pub open spec fn grid_cell_pairs(k: int, idx: int) -> Seq<(u32, u32)> {
    let right: Seq<(u32, u32)> = if idx % k + 1 < k {
        seq![(idx as u32, (idx + 1) as u32)]
    } else {
        seq![]
    };
    let down: Seq<(u32, u32)> = if idx / k + 1 < k {
        seq![(idx as u32, (idx + k) as u32)]
    } else {
        seq![]
    };
    right + down
}

/// The pairs asked for at the first `t` cells of a grid, in row-major order.
pub open spec fn grid_pairs(k: int, t: int) -> Seq<(u32, u32)>
    decreases t,
{
    if t <= 0 {
        seq![]
    } else {
        grid_pairs(k, t - 1) + grid_cell_pairs(k, t - 1)
    }
}

/// The pairs a preset of size `k` asks `add_edge` for, in order.
pub open spec fn edge_requests(p: Preset, k: int) -> Seq<(u32, u32)> {
    match p {
        Preset::Complete => complete_pairs(k, k),
        Preset::Cycle => Seq::new(k as nat, |i: int| (i as u32, ((i + 1) % k) as u32)),
        Preset::Path => Seq::new((k - 1) as nat, |i: int| (i as u32, (i + 1) as u32)),
        Preset::Star => Seq::new(k as nat, |i: int| (0u32, (i + 1) as u32)),
        Preset::Wheel => Seq::new(k as nat, |i: int| (0u32, (i + 1) as u32)) + Seq::new(
            k as nat,
            |i: int| ((i + 1) as u32, ((i + 1) % k + 1) as u32),
        ),
        Preset::Petersen => Seq::new(5, |i: int| (i as u32, ((i + 1) % 5) as u32)) + Seq::new(
            5,
            |i: int| ((5 + i) as u32, (5 + (i + 2) % 5) as u32),
        ) + Seq::new(5, |i: int| (i as u32, (5 + i) as u32)),
        Preset::Bipartite => bipartite_pairs(k, k),
        Preset::Grid => grid_pairs(k, k * k),
    }
}

/// A graph with the vertices `0 .. count` and no edge.
pub open spec fn with_vertices(count: nat) -> GraphModel {
    GraphModel {
        vertex_ids: Seq::new(count, |i: int| i as u32),
        edges: seq![],
        next_vertex_id: count,
        next_edge_id: 0,
    }
}

/// `g` after asking `add_edge` for every pair of `reqs`, in order.
pub open spec fn apply_requests(g: GraphModel, reqs: Seq<(u32, u32)>) -> GraphModel
    decreases reqs.len(),
{
    if reqs.len() == 0 {
        g
    } else {
        apply_requests(g, reqs.drop_last()).add_edge(reqs.last().0, reqs.last().1)
    }
}

/// The preset graph of size `k`.
pub open spec fn preset_graph(p: Preset, k: int) -> GraphModel {
    apply_requests(with_vertices(vertex_total(p, k) as nat), edge_requests(p, k))
}

/// The size actually used: at least 2.
pub open spec fn preset_size(n: u32) -> int {
    if n < 2 {
        2
    } else {
        n as int
    }
}

/// What `generate(name, n)` leaves: the preset, or an empty graph for an
/// unknown name.
pub open spec fn generated(name: Seq<char>, n: u32) -> GraphModel {
    match preset_named(name) {
        Some(p) => preset_graph(p, preset_size(n)),
        None => GraphModel::empty(),
    }
}

/// The preset's vertex and edge ids fit in `u32`, as `add_vertex` and
/// `add_edge` need.
pub open spec fn generation_fits(name: Seq<char>, n: u32) -> bool {
    match preset_named(name) {
        Some(p) => vertex_total(p, preset_size(n)) <= u32::MAX && preset_graph(
            p,
            preset_size(n),
        ).next_edge_id <= u32::MAX,
        None => true,
    }
}

/// How many pairs a preset of size `k` asks `add_edge` for.
pub open spec fn request_count(p: Preset, k: int) -> int {
    match p {
        Preset::Complete => k * (k - 1) / 2,
        Preset::Cycle => k,
        Preset::Path => k - 1,
        Preset::Star => k,
        Preset::Wheel => 2 * k,
        Preset::Petersen => 15,
        Preset::Bipartite => k * k,
        Preset::Grid => 2 * k * (k - 1),
    }
}

/// The preset's vertex count and the number of pairs it asks for both fit
/// in `u32` (true of an unknown name, which builds nothing).
pub open spec fn preset_ids_fit(name: Seq<char>, n: u32) -> bool {
    match preset_named(name) {
        Some(p) => vertex_total(p, preset_size(n)) <= u32::MAX && request_count(p, preset_size(n))
            <= u32::MAX,
        None => true,
    }
}

proof fn lemma_complete_pairs_len(k: int, r: int)
    requires
        0 <= r <= k,
    ensures
        2 * complete_pairs(k, r).len() == 2 * r * k - r * (r + 1),
    decreases r,
{
    if r > 0 {
        lemma_complete_pairs_len(k, r - 1);
        assert(complete_pairs(k, r).len() == complete_pairs(k, r - 1).len() + (k - r));
        assert(2 * r * k - r * (r + 1) == 2 * (r - 1) * k - (r - 1) * (r - 1 + 1) + 2 * (k - r))
            by (nonlinear_arith);
    } else {
        assert(2 * r * k - r * (r + 1) == 0) by (nonlinear_arith)
            requires
                r == 0,
        ;
    }
}

proof fn lemma_bipartite_pairs_len(k: int, r: int)
    requires
        0 <= r,
        0 <= k,
    ensures
        bipartite_pairs(k, r).len() == r * k,
    decreases r,
{
    if r > 0 {
        lemma_bipartite_pairs_len(k, r - 1);
        assert(bipartite_pairs(k, r).len() == bipartite_pairs(k, r - 1).len() + k);
        assert((r - 1) * k + k == r * k) by (nonlinear_arith);
    } else {
        assert(r * k == 0) by (nonlinear_arith)
            requires
                r == 0,
        ;
    }
}

/// Along row `r` of the grid, the first `c` cells each ask for their right
/// neighbour (all but the last cell) and, above the last row, the cell
/// below.
proof fn lemma_grid_row_len(k: int, r: int, c: int)
    requires
        k >= 1,
        0 <= r < k,
        0 <= c <= k,
    ensures
        grid_pairs(k, r * k + c).len() == grid_pairs(k, r * k).len() + (if c < k {
            c
        } else {
            k - 1
        }) + (if r + 1 < k {
            c
        } else {
            0
        }),
    decreases c,
{
    if c > 0 {
        lemma_grid_row_len(k, r, c - 1);
        let x = r * k + c - 1;
        assert(r * k >= 0) by (nonlinear_arith)
            requires
                r >= 0,
                k >= 1,
        ;
        vstd::arithmetic::div_mod::lemma_fundamental_div_mod_converse(x, k, r, c - 1);
        assert(grid_pairs(k, x + 1) == grid_pairs(k, x) + grid_cell_pairs(k, x));
    }
}

proof fn lemma_grid_rows_len(k: int, r: int)
    requires
        k >= 1,
        0 <= r <= k,
    ensures
        grid_pairs(k, r * k).len() == r * (k - 1) + k * (if r < k {
            r
        } else {
            k - 1
        }),
    decreases r,
{
    if r > 0 {
        lemma_grid_rows_len(k, r - 1);
        lemma_grid_row_len(k, r - 1, k);
        assert((r - 1) * k + k == r * k) by (nonlinear_arith);
        assert((r - 1) * (k - 1) + (k - 1) == r * (k - 1)) by (nonlinear_arith);
        assert(k * (r - 1) + k == k * r) by (nonlinear_arith);
    } else {
        assert(r * k == 0 && r * (k - 1) == 0 && k * r == 0) by (nonlinear_arith)
            requires
                r == 0,
        ;
    }
}

/// The number of pairs each preset asks for.
proof fn lemma_request_count(p: Preset, k: int)
    requires
        k >= 2,
    ensures
        edge_requests(p, k).len() == request_count(p, k),
{
    match p {
        Preset::Complete => {
            lemma_complete_pairs_len(k, k);
            assert(2 * k * k - k * (k + 1) == k * (k - 1)) by (nonlinear_arith);
        },
        Preset::Bipartite => {
            lemma_bipartite_pairs_len(k, k);
        },
        Preset::Grid => {
            lemma_grid_rows_len(k, k);
            assert(k * (k - 1) + k * (k - 1) == 2 * k * (k - 1)) by (nonlinear_arith);
        },
        _ => {},
    }
}

/// Each pair asked for adds at most one edge id.
proof fn lemma_apply_edge_counter(g: GraphModel, reqs: Seq<(u32, u32)>)
    ensures
        apply_requests(g, reqs).next_edge_id <= g.next_edge_id + reqs.len(),
    decreases reqs.len(),
{
    if reqs.len() > 0 {
        lemma_apply_edge_counter(g, reqs.drop_last());
    }
}

/// When the vertex count and the number of pairs asked for fit in `u32`, so
/// do the ids `generate` hands out.
pub proof fn lemma_ids_fit_suffice(name: Seq<char>, n: u32)
    requires
        preset_ids_fit(name, n),
    ensures
        generation_fits(name, n),
{
    if let Some(p) = preset_named(name) {
        let k = preset_size(n);
        lemma_request_count(p, k);
        lemma_apply_edge_counter(with_vertices(vertex_total(p, k) as nat), edge_requests(p, k));
    }
}

/// Whether `generate(kind, n)` can number every vertex and edge it builds:
/// the preset's vertex count and the number of pairs it asks for both fit
/// in `u32`.
pub fn preset_fits(kind: &str, n: u32) -> (fits: bool)
    ensures
        fits == preset_ids_fit(kind@, n),
        fits ==> generation_fits(kind@, n),
{
    let k: u128 = if n < 2 {
        2
    } else {
        n as u128
    };
    let fits = match preset_from_name(kind) {
        None => true,
        Some(p) => {
            assert(k * k <= 0xffff_ffff * 0xffff_ffffu128 && k * (k - 1) <= k * k) by (nonlinear_arith)
                requires
                    2 <= k <= 0xffff_ffff,
            ;
            let (vertices, pairs): (u128, u128) = match p {
                Preset::Complete => (k, k * (k - 1) / 2),
                Preset::Cycle => (k, k),
                Preset::Path => (k, k - 1),
                Preset::Star => (k + 1, k),
                Preset::Wheel => (k + 1, 2 * k),
                Preset::Petersen => (10, 15),
                Preset::Bipartite => (2 * k, k * k),
                Preset::Grid => (k * k, 2 * (k * (k - 1))),
            };
            assert(2 * (k * (k - 1)) == 2 * k * (k - 1)) by (nonlinear_arith);
            vertices <= 0xffff_ffff && pairs <= 0xffff_ffff
        },
    };
    proof {
        if fits {
            lemma_ids_fit_suffice(kind@, n);
        }
    }
    fits
}

/// The edge counter never goes down as pairs are asked for.
proof fn lemma_apply_prefix(g: GraphModel, reqs: Seq<(u32, u32)>, i: int, j: int)
    requires
        0 <= i <= j <= reqs.len(),
    ensures
        apply_requests(g, reqs.take(i)).next_edge_id <= apply_requests(g, reqs.take(j)).next_edge_id,
    decreases j - i,
{
    if i < j {
        lemma_apply_prefix(g, reqs, i, j - 1);
        assert(reqs.take(j).drop_last() =~= reqs.take(j - 1));
    }
}

fn complete_requests(k: u32) -> (reqs: Vec<(u32, u32)>)
    ensures
        reqs@ == complete_pairs(k as int, k as int),
{
    let mut reqs: Vec<(u32, u32)> = Vec::new();
    let mut i: u32 = 0;
    while i < k
        invariant
            i <= k,
            reqs@ == complete_pairs(k as int, i as int),
        decreases k - i,
    {
        let ghost done = reqs@;
        let mut j: u32 = i + 1;
        while j < k
            invariant
                i < k,
                i + 1 <= j <= k,
                reqs@ == done + Seq::new(
                    (j - i - 1) as nat,
                    |t: int| (i as u32, (i + 1 + t) as u32),
                ),
            decreases k - j,
        {
            reqs.push((i, j));
            assert(reqs@ =~= done + Seq::new(
                (j + 1 - i - 1) as nat,
                |t: int| (i as u32, (i + 1 + t) as u32),
            ));
            j = j + 1;
        }
        assert(reqs@ =~= complete_pairs(k as int, i + 1));
        i = i + 1;
    }
    reqs
}

fn bipartite_requests(k: u32) -> (reqs: Vec<(u32, u32)>)
    requires
        2 * k <= u32::MAX,
    ensures
        reqs@ == bipartite_pairs(k as int, k as int),
{
    let mut reqs: Vec<(u32, u32)> = Vec::new();
    let mut i: u32 = 0;
    while i < k
        invariant
            i <= k,
            2 * k <= u32::MAX,
            reqs@ == bipartite_pairs(k as int, i as int),
        decreases k - i,
    {
        let ghost done = reqs@;
        let mut j: u32 = 0;
        while j < k
            invariant
                i < k,
                j <= k,
                2 * k <= u32::MAX,
                reqs@ == done + Seq::new(j as nat, |t: int| (i as u32, (k + t) as u32)),
            decreases k - j,
        {
            reqs.push((i, k + j));
            assert(reqs@ =~= done + Seq::new((j + 1) as nat, |t: int| (i as u32, (k + t) as u32)));
            j = j + 1;
        }
        assert(reqs@ =~= bipartite_pairs(k as int, i + 1));
        i = i + 1;
    }
    reqs
}

fn grid_requests(k: u32) -> (reqs: Vec<(u32, u32)>)
    requires
        k >= 1,
        k * k <= u32::MAX,
    ensures
        reqs@ == grid_pairs(k as int, k * k),
{
    let mut reqs: Vec<(u32, u32)> = Vec::new();
    let total = k * k;
    let mut idx: u32 = 0;
    while idx < total
        invariant
            k >= 1,
            total == k * k,
            total <= u32::MAX,
            idx <= total,
            reqs@ == grid_pairs(k as int, idx as int),
        decreases total - idx,
    {
        let ghost done = reqs@;
        let r = idx / k;
        let c = idx % k;
        if c + 1 < k {
            reqs.push((idx, idx + 1));
        }
        let ghost after_right = reqs@;
        if r + 1 < k {
            proof {
                assert(idx + k < total) by (nonlinear_arith)
                    requires
                        r == idx / k,
                        c == idx % k,
                        r + 1 < k,
                        total == k * k,
                        k >= 1,
                ;
            }
            reqs.push((idx, idx + k));
        }
        assert(reqs@ =~= done + grid_cell_pairs(k as int, idx as int));
        idx = idx + 1;
    }
    reqs
}

/// The pairs a preset of size `k` asks `add_edge` for, in order.
fn requests_for(p: Preset, k: u32) -> (reqs: Vec<(u32, u32)>)
    requires
        k >= 2,
        vertex_total(p, k as int) <= u32::MAX,
    ensures
        reqs@ == edge_requests(p, k as int),
{
    let mut reqs: Vec<(u32, u32)> = Vec::new();
    match p {
        Preset::Complete => {
            return complete_requests(k);
        },
        Preset::Cycle => {
            let mut i: u32 = 0;
            while i < k
                invariant
                    k >= 2,
                    i <= k,
                    reqs@ =~= Seq::new(i as nat, |t: int| (t as u32, ((t + 1) % (k as int)) as u32)),
                decreases k - i,
            {
                reqs.push((i, (i + 1) % k));
                i = i + 1;
            }
        },
        Preset::Path => {
            let mut i: u32 = 0;
            while i < k - 1
                invariant
                    k >= 2,
                    i <= k - 1,
                    reqs@ =~= Seq::new(i as nat, |t: int| (t as u32, (t + 1) as u32)),
                decreases k - 1 - i,
            {
                reqs.push((i, i + 1));
                i = i + 1;
            }
        },
        Preset::Star => {
            let mut i: u32 = 0;
            while i < k
                invariant
                    k + 1 <= u32::MAX,
                    i <= k,
                    reqs@ =~= Seq::new(i as nat, |t: int| (0u32, (t + 1) as u32)),
                decreases k - i,
            {
                reqs.push((0, i + 1));
                i = i + 1;
            }
        },
        Preset::Wheel => {
            let mut i: u32 = 0;
            while i < k
                invariant
                    k + 1 <= u32::MAX,
                    i <= k,
                    reqs@ =~= Seq::new(i as nat, |t: int| (0u32, (t + 1) as u32)),
                decreases k - i,
            {
                reqs.push((0, i + 1));
                i = i + 1;
            }
            let ghost spokes = reqs@;
            let mut i: u32 = 0;
            while i < k
                invariant
                    k >= 2,
                    k + 1 <= u32::MAX,
                    i <= k,
                    reqs@ =~= spokes + Seq::new(
                        i as nat,
                        |t: int| ((t + 1) as u32, ((t + 1) % (k as int) + 1) as u32),
                    ),
                decreases k - i,
            {
                reqs.push((i + 1, (i + 1) % k + 1));
                i = i + 1;
            }
        },
        Preset::Petersen => {
            let mut i: u32 = 0;
            while i < 5
                invariant
                    i <= 5,
                    reqs@ =~= Seq::new(i as nat, |t: int| (t as u32, ((t + 1) % 5) as u32)),
                decreases 5 - i,
            {
                reqs.push((i, (i + 1) % 5));
                i = i + 1;
            }
            let ghost outer = reqs@;
            let mut i: u32 = 0;
            while i < 5
                invariant
                    i <= 5,
                    reqs@ =~= outer + Seq::new(
                        i as nat,
                        |t: int| ((5 + t) as u32, (5 + (t + 2) % 5) as u32),
                    ),
                decreases 5 - i,
            {
                reqs.push((5 + i, 5 + (i + 2) % 5));
                i = i + 1;
            }
            let ghost inner = reqs@;
            let mut i: u32 = 0;
            while i < 5
                invariant
                    i <= 5,
                    reqs@ =~= inner + Seq::new(i as nat, |t: int| (t as u32, (5 + t) as u32)),
                decreases 5 - i,
            {
                reqs.push((i, 5 + i));
                i = i + 1;
            }
        },
        Preset::Bipartite => {
            return bipartite_requests(k);
        },
        Preset::Grid => {
            return grid_requests(k);
        },
    }
    reqs
}

/// Asks `add_edge` for every pair of `reqs`, in order.
fn add_requested_edges(g: &mut Graph, reqs: &Vec<(u32, u32)>)
    requires
        old(g).wf(),
        apply_requests(old(g)@, reqs@).next_edge_id <= u32::MAX,
    ensures
        final(g).wf(),
        final(g)@ == apply_requests(old(g)@, reqs@),
{
    let ghost start = g@;
    let mut i: usize = 0;
    while i < reqs.len()
        invariant
            i <= reqs@.len(),
            g.wf(),
            g@ == apply_requests(start, reqs@.take(i as int)),
            apply_requests(start, reqs@).next_edge_id <= u32::MAX,
        decreases reqs@.len() - i,
    {
        let (from, to) = reqs[i];
        proof {
            assert(reqs@.take(i + 1).drop_last() =~= reqs@.take(i as int));
            lemma_apply_prefix(start, reqs@, i + 1, reqs@.len() as int);
            assert(reqs@.take(reqs@.len() as int) =~= reqs@);
        }
        g.add_edge(from, to);
        i = i + 1;
    }
    assert(reqs@.take(reqs@.len() as int) =~= reqs@);
}

impl Graph {
    /// Clears the graph and builds the preset named `kind` (complete, cycle,
    /// path, star, wheel, petersen, bipartite or grid) of size `n`, at least
    /// 2 (ignored for petersen). An unknown name leaves the graph empty.
    /// Every size for which `preset_fits` holds can be built.
    pub fn generate(&mut self, kind: &str, n: u32)
        requires
            old(self).wf(),
            generation_fits(kind@, n),
        ensures
            final(self).wf(),
            final(self)@ == generated(kind@, n),
    {
        self.clear();
        let k: u32 = if n < 2 {
            2
        } else {
            n
        };
        match preset_from_name(kind) {
            None => {},
            Some(p) => {
                let total: u32 = match p {
                    Preset::Complete => k,
                    Preset::Cycle => k,
                    Preset::Path => k,
                    Preset::Star => k + 1,
                    Preset::Wheel => k + 1,
                    Preset::Petersen => 10,
                    Preset::Bipartite => 2 * k,
                    Preset::Grid => k * k,
                };
                let mut i: u32 = 0;
                assert(with_vertices(0).vertex_ids =~= GraphModel::empty().vertex_ids);
                while i < total
                    invariant
                        i <= total,
                        total <= u32::MAX,
                        self.wf(),
                        self@ == with_vertices(i as nat),
                    decreases total - i,
                {
                    self.add_vertex();
                    assert(self@.vertex_ids =~= Seq::new((i + 1) as nat, |t: int| t as u32));
                    i = i + 1;
                }
                let reqs = requests_for(p, k);
                add_requested_edges(self, &reqs);
            },
        }
    }
}

} // verus!
