//! Properties that relate several operations of the library.
use vstd::prelude::*;
use crate::degrees::{count_true, degree_list, lemma_count_true_bound, sum_of};
use crate::graph::{
    decimal, digit_char, adjacency, edge_joins, edge_touches, joined, lemma_filter_members, other_edge, other_vertex,
    away_from, GraphModel,
};

verus! {

broadcast use vstd::seq_lib::group_seq_properties;

/// The number of `true` entries of a whole matrix.
pub open spec fn matrix_total(m: Seq<Seq<bool>>) -> nat
    decreases m.len(),
{
    if m.len() == 0 {
        0
    } else {
        matrix_total(m.drop_last()) + count_true(m.last())
    }
}

/// The adjacency matrix of `g` counting only its first `k` edges.
pub open spec fn adjacency_upto(g: GraphModel, k: int) -> Seq<Seq<bool>> {
    Seq::new(
        g.vertex_ids.len(),
        |i: int|
            Seq::new(
                g.vertex_ids.len(),
                |j: int| joined(g.edges.take(k), g.vertex_ids[i], g.vertex_ids[j]),
            ),
    )
}

proof fn lemma_count_true_update(row: Seq<bool>, j: int)
    requires
        0 <= j < row.len(),
        !row[j],
    ensures
        count_true(row.update(j, true)) == count_true(row) + 1,
    decreases row.len(),
{
    let r2 = row.update(j, true);
    if j == row.len() - 1 {
        assert(r2.drop_last() =~= row.drop_last());
    } else {
        lemma_count_true_update(row.drop_last(), j);
        assert(r2.drop_last() =~= row.drop_last().update(j, true));
    }
}

proof fn lemma_count_true_all_false(row: Seq<bool>)
    requires
        forall|j: int| 0 <= j < row.len() ==> !#[trigger] row[j],
    ensures
        count_true(row) == 0,
    decreases row.len(),
{
    if row.len() > 0 {
        lemma_count_true_all_false(row.drop_last());
    }
}

proof fn lemma_total_update(m: Seq<Seq<bool>>, i: int, row: Seq<bool>)
    requires
        0 <= i < m.len(),
    ensures
        matrix_total(m.update(i, row)) + count_true(m[i]) == matrix_total(m) + count_true(row),
    decreases m.len(),
{
    let m2 = m.update(i, row);
    if i == m.len() - 1 {
        assert(m2.drop_last() =~= m.drop_last());
    } else {
        lemma_total_update(m.drop_last(), i, row);
        assert(m2.drop_last() =~= m.drop_last().update(i, row));
    }
}

proof fn lemma_total_is_degree_sum(m: Seq<Seq<bool>>)
    requires
        forall|i: int| 0 <= i < m.len() ==> #[trigger] count_true(m[i]) <= u32::MAX,
    ensures
        sum_of(degree_list(m)) == matrix_total(m),
    decreases m.len(),
{
    if m.len() > 0 {
        lemma_total_is_degree_sum(m.drop_last());
        assert(degree_list(m).drop_last() =~= degree_list(m.drop_last()));
        assert(count_true(m[m.len() - 1]) <= u32::MAX);
    }
}

/// Each edge adds two `true` entries to the adjacency matrix.
proof fn lemma_total_upto(g: GraphModel, k: int)
    requires
        g.wf(),
        0 <= k <= g.edges.len(),
    ensures
        matrix_total(adjacency_upto(g, k)) == 2 * k,
    decreases k,
{
    let n = g.vertex_ids.len() as int;
    let ids = g.vertex_ids;
    if k == 0 {
        let m0 = adjacency_upto(g, 0);
        assert forall|i: int| 0 <= i < n implies count_true(#[trigger] m0[i]) == 0 by {
            lemma_count_true_all_false(m0[i]);
        }
        lemma_total_zero(m0);
    } else {
        lemma_total_upto(g, k - 1);
        let prev = adjacency_upto(g, k - 1);
        let next = adjacency_upto(g, k);
        let e = g.edges[k - 1];
        let a = choose|a: int| 0 <= a < n && ids[a] == e.1;
        let b = choose|b: int| 0 <= b < n && ids[b] == e.2;
        assert(a != b);
        let pre_edges = g.edges.take(k - 1);
        let post_edges = g.edges.take(k);
        assert(post_edges =~= pre_edges.push(e));
        // No earlier edge joins the same pair.
        assert(!joined(pre_edges, e.1, e.2)) by {
            if joined(pre_edges, e.1, e.2) {
                let q = choose|q: int| 0 <= q < pre_edges.len() && #[trigger] edge_joins(pre_edges[q], e.1, e.2);
                assert(edge_joins(g.edges[q], g.edges[k - 1].1, g.edges[k - 1].2));
            }
        }
        assert(!prev[a][b]);
        assert(!prev[b][a]) by {
            if joined(pre_edges, e.2, e.1) {
                let q = choose|q: int| 0 <= q < pre_edges.len() && #[trigger] edge_joins(pre_edges[q], e.2, e.1);
                assert(edge_joins(pre_edges[q], e.1, e.2));
            }
        }
        let row_a = prev[a].update(b, true);
        let mid = prev.update(a, row_a);
        let row_b = mid[b].update(a, true);
        let fin = mid.update(b, row_b);
        assert forall|i: int, j: int| 0 <= i < n && 0 <= j < n implies #[trigger] next[i][j]
            == fin[i][j] by {
            let x = ids[i];
            let y = ids[j];
            if joined(post_edges, x, y) {
                let q = choose|q: int| 0 <= q < post_edges.len() && #[trigger] edge_joins(post_edges[q], x, y);
                if q < k - 1 {
                    assert(edge_joins(pre_edges[q], x, y));
                }
            }
            if joined(pre_edges, x, y) {
                let q = choose|q: int| 0 <= q < pre_edges.len() && #[trigger] edge_joins(pre_edges[q], x, y);
                assert(edge_joins(post_edges[q], x, y));
            }
            if edge_joins(e, x, y) {
                assert(edge_joins(post_edges[k - 1], x, y));
                assert((i == a && j == b) || (i == b && j == a));
            }
            if (i == a && j == b) || (i == b && j == a) {
                assert(edge_joins(post_edges[k - 1], x, y));
            }
        }
        assert(next =~~= fin);
        lemma_count_true_update(prev[a], b);
        lemma_total_update(prev, a, row_a);
        lemma_count_true_update(mid[b], a);
        lemma_total_update(mid, b, row_b);
    }
}

proof fn lemma_total_zero(m: Seq<Seq<bool>>)
    requires
        forall|i: int| 0 <= i < m.len() ==> count_true(#[trigger] m[i]) == 0,
    ensures
        matrix_total(m) == 0,
    decreases m.len(),
{
    if m.len() > 0 {
        lemma_total_zero(m.drop_last());
    }
}

/// The handshake lemma: the degrees of a graph add up to twice its number of
/// edges.
pub proof fn lemma_handshake(g: GraphModel)
    requires
        g.wf(),
    ensures
        sum_of(degree_list(adjacency(g))) == 2 * g.edges.len(),
{
    let m = adjacency(g);
    lemma_total_upto(g, g.edges.len() as int);
    assert(g.edges.take(g.edges.len() as int) =~= g.edges);
    assert(adjacency_upto(g, g.edges.len() as int) =~~= m);
    assert forall|i: int| 0 <= i < m.len() implies #[trigger] count_true(m[i]) <= u32::MAX by {
        lemma_count_true_bound(m[i]);
    }
    lemma_total_is_degree_sum(m);
}

/// Filtering with a predicate that every item meets changes nothing.
proof fn lemma_filter_keeps_all<A>(s: Seq<A>, p: spec_fn(A) -> bool)
    requires
        forall|i: int| 0 <= i < s.len() ==> #[trigger] p(s[i]),
    ensures
        s.filter(p) == s,
    decreases s.len(),
{
    if s.len() > 0 {
        let init = s.drop_last();
        assert forall|i: int| 0 <= i < init.len() implies #[trigger] p(init[i]) by {
            assert(p(s[i]));
        }
        lemma_filter_keeps_all(init, p);
        assert(s =~= init.push(s.last()));
        init.lemma_filter_push(s.last(), p);
        assert(p(s[s.len() - 1]));
    }
}

/// Deleting the edge that `add_edge` has just added gives back the edges as
/// they were.
pub proof fn lemma_delete_undoes_add_edge(g: GraphModel, from: u32, to: u32)
    requires
        g.wf(),
        g.accepts_edge(from, to),
        g.next_edge_id < u32::MAX,
    ensures
        g.add_edge(from, to).delete_edge(g.next_edge_id as u32).edges == g.edges,
        g.add_edge(from, to).delete_edge(g.next_edge_id as u32).vertex_ids == g.vertex_ids,
{
    let id = g.next_edge_id as u32;
    let p = other_edge(id);
    assert forall|i: int| 0 <= i < g.edges.len() implies #[trigger] p(g.edges[i]) by {
        assert(g.edges[i].0 < g.next_edge_id);
    }
    lemma_filter_keeps_all(g.edges, p);
    g.edges.lemma_filter_push((id, from, to), p);
}

/// Deleting the vertex that `add_vertex` has just added gives back the
/// vertices and the edges as they were.
pub proof fn lemma_delete_undoes_add_vertex(g: GraphModel)
    requires
        g.wf(),
        g.next_vertex_id < u32::MAX,
    ensures
        g.add_vertex().delete_vertex(g.next_vertex_id as u32).vertex_ids == g.vertex_ids,
        g.add_vertex().delete_vertex(g.next_vertex_id as u32).edges == g.edges,
{
    let id = g.next_vertex_id as u32;
    let pv = other_vertex(id);
    let pe = away_from(id);
    assert forall|i: int| 0 <= i < g.vertex_ids.len() implies #[trigger] pv(g.vertex_ids[i]) by {
        assert(g.vertex_ids[i] < g.next_vertex_id);
    }
    lemma_filter_keeps_all(g.vertex_ids, pv);
    g.vertex_ids.lemma_filter_push(id, pv);
    assert forall|k: int| 0 <= k < g.edges.len() implies #[trigger] pe(g.edges[k]) by {
        let e = g.edges[k];
        assert(g.has_vertex(e.1) && g.has_vertex(e.2));
        let a = choose|a: int| 0 <= a < g.vertex_ids.len() && g.vertex_ids[a] == e.1;
        let b = choose|b: int| 0 <= b < g.vertex_ids.len() && g.vertex_ids[b] == e.2;
        assert(g.vertex_ids[a] < g.next_vertex_id && g.vertex_ids[b] < g.next_vertex_id);
    }
    lemma_filter_keeps_all(g.edges, pe);
}

/// After `delete_vertex(id)` the vertex is gone and no edge touches it.
pub proof fn lemma_delete_vertex_detaches(g: GraphModel, id: u32)
    ensures
        !g.delete_vertex(id).has_vertex(id),
        forall|k: int|
            0 <= k < g.delete_vertex(id).edges.len() ==> !edge_touches(
                #[trigger] g.delete_vertex(id).edges[k],
                id,
            ),
{
    let h = g.delete_vertex(id);
    lemma_filter_members(g.vertex_ids, other_vertex(id));
    lemma_filter_members(g.edges, away_from(id));
    assert forall|k: int| 0 <= k < h.edges.len() implies !edge_touches(#[trigger] h.edges[k], id) by {
        assert(h.edges.contains(h.edges[k]));
    }
}

/// Asking again for an edge just asked for, in either direction, changes
/// nothing: the pair is joined by then, or was refused for good.
pub proof fn lemma_add_edge_idempotent(g: GraphModel, from: u32, to: u32)
    ensures
        g.add_edge(from, to).add_edge(from, to) == g.add_edge(from, to),
        g.add_edge(from, to).add_edge(to, from) == g.add_edge(from, to),
{
    let h = g.add_edge(from, to);
    if g.accepts_edge(from, to) {
        let last = h.edges.len() - 1;
        assert(edge_joins(h.edges[last], from, to));
        assert(edge_joins(h.edges[last], to, from));
    } else if joined(g.edges, from, to) {
        let k = choose|k: int| 0 <= k < g.edges.len() && #[trigger] edge_joins(g.edges[k], from, to);
        assert(edge_joins(g.edges[k], to, from));
    }
}

/// Deleting a vertex that is not there changes nothing.
pub proof fn lemma_delete_missing_vertex(g: GraphModel, id: u32)
    requires
        g.wf(),
        !g.has_vertex(id),
    ensures
        g.delete_vertex(id) == g,
{
    let pv = other_vertex(id);
    let pe = away_from(id);
    assert forall|i: int| 0 <= i < g.vertex_ids.len() implies #[trigger] pv(g.vertex_ids[i]) by {
        assert(g.vertex_ids.contains(g.vertex_ids[i]));
    }
    lemma_filter_keeps_all(g.vertex_ids, pv);
    assert forall|k: int| 0 <= k < g.edges.len() implies #[trigger] pe(g.edges[k]) by {
        let e = g.edges[k];
        assert(g.has_vertex(e.1) && g.has_vertex(e.2));
    }
    lemma_filter_keeps_all(g.edges, pe);
}

/// Deleting an edge id that no edge has changes nothing.
pub proof fn lemma_delete_missing_edge(g: GraphModel, id: u32)
    requires
        forall|k: int| 0 <= k < g.edges.len() ==> #[trigger] g.edges[k].0 != id,
    ensures
        g.delete_edge(id) == g,
{
    let p = other_edge(id);
    assert forall|k: int| 0 <= k < g.edges.len() implies #[trigger] p(g.edges[k]) by {
        assert(g.edges[k].0 != id);
    }
    lemma_filter_keeps_all(g.edges, p);
}

/// Whether every character of `s` is one of the digits `0` to `9`.
pub open spec fn all_digits(s: Seq<char>) -> bool {
    forall|i: int| 0 <= i < s.len() ==> '0' <= #[trigger] s[i] <= '9'
}

/// The number a string of decimal digits denotes, read from the left: each
/// digit `d_i` counts `d_i * 10^(len - 1 - i)`.
pub open spec fn numeral_value(s: Seq<char>) -> int
    decreases s.len(),
{
    if s.len() == 0 {
        0
    } else {
        numeral_value(s.drop_last()) * 10 + (s.last() as int - '0' as int)
    }
}

/// A vertex label is the standard decimal numeral of the id: a nonempty
/// string of digits that reads back as the number, with no leading zero
/// (`0` itself is the single digit `0`).
pub proof fn lemma_decimal_is_numeral(n: nat)
    ensures
        decimal(n).len() >= 1,
        all_digits(decimal(n)),
        numeral_value(decimal(n)) == n,
        n > 0 ==> decimal(n)[0] != '0',
        n == 0 ==> decimal(n) == seq!['0'],
    decreases n,
{
    if n < 10 {
        assert(decimal(n) == seq![digit_char(n)]);
        let s = decimal(n);
        assert(s.drop_last() =~= Seq::<char>::empty());
        assert(numeral_value(s.drop_last()) == 0);
        assert(digit_char(n) as int == n + 48);
        assert(numeral_value(decimal(n)) == n);
    } else {
        let q = n / 10;
        let r = n % 10;
        lemma_decimal_is_numeral(q);
        let s = decimal(n);
        assert(s == decimal(q).push(digit_char(r)));
        assert(s.drop_last() =~= decimal(q));
        assert(n == q * 10 + r);
        assert(q > 0);
        assert(digit_char(r) as int == r + 48);
        assert(numeral_value(s) == numeral_value(decimal(q)) * 10 + r);
        assert(s[0] == decimal(q)[0]);
        assert forall|i: int| 0 <= i < s.len() implies '0' <= #[trigger] s[i] <= '9' by {
            if i < s.len() - 1 {
                assert(s[i] == decimal(q)[i]);
            }
        }
    }
}

} // verus!
