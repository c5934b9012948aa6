//! The editable graph: vertices and undirected edges with stable integer
//! ids. Vertex positions on the canvas are not part of this model; the
//! editor keeps them beside it, keyed by vertex id.
use vstd::prelude::*;
use std::collections::HashMap;

verus! {

broadcast use {vstd::seq_lib::group_seq_properties, vstd::std_specs::hash::group_hash_axioms};

/// A vertex: its id, and its label (the id written in decimal).
#[derive(Clone)]
pub struct Vertex {
    pub id: u32,
    pub label: String,
}

/// An undirected edge between the vertices `from` and `to`.
#[derive(Clone)]
pub struct Edge {
    pub id: u32,
    pub from: u32,
    pub to: u32,
}

/// A graph with the counters from which fresh ids are drawn.
pub struct Graph {
    vertices: Vec<Vertex>,
    edges: Vec<Edge>,
    next_vertex_id: u32,
    next_edge_id: u32,
}

/// The abstract value of a graph: vertex ids in insertion order, edges as
/// `(id, from, to)` in insertion order, and the next ids to hand out.
pub struct GraphModel {
    pub vertex_ids: Seq<u32>,
    pub edges: Seq<(u32, u32, u32)>,
    pub next_vertex_id: nat,
    pub next_edge_id: nat,
}

/// The ids of a sequence of vertices.
pub open spec fn ids_of(vs: Seq<Vertex>) -> Seq<u32> {
    vs.map_values(|v: Vertex| v.id)
}

/// The `(id, from, to)` triples of a sequence of edges.
pub open spec fn triples_of(es: Seq<Edge>) -> Seq<(u32, u32, u32)> {
    es.map_values(|e: Edge| (e.id, e.from, e.to))
}

/// The digit `d` (below 10) as a character.
pub open spec fn digit_char(d: nat) -> char {
    (d + 48) as char
}

/// The decimal representation of `n`, without sign or leading zeros.
pub open spec fn decimal(n: nat) -> Seq<char>
    decreases n,
{
    if n < 10 {
        seq![digit_char(n)]
    } else {
        decimal(n / 10).push(digit_char(n % 10))
    }
}

/// The text of the single digit `d`.
fn digit_text(d: u32) -> (text: &'static str)
    requires
        d < 10,
    ensures
        text@ == seq![digit_char(d as nat)],
{
    match d {
        0 => {
            proof {
                reveal_strlit("0");
            }
            "0"
        },
        1 => {
            proof {
                reveal_strlit("1");
            }
            "1"
        },
        2 => {
            proof {
                reveal_strlit("2");
            }
            "2"
        },
        3 => {
            proof {
                reveal_strlit("3");
            }
            "3"
        },
        4 => {
            proof {
                reveal_strlit("4");
            }
            "4"
        },
        5 => {
            proof {
                reveal_strlit("5");
            }
            "5"
        },
        6 => {
            proof {
                reveal_strlit("6");
            }
            "6"
        },
        7 => {
            proof {
                reveal_strlit("7");
            }
            "7"
        },
        8 => {
            proof {
                reveal_strlit("8");
            }
            "8"
        },
        _ => {
            proof {
                reveal_strlit("9");
            }
            "9"
        },
    }
}

/// The label of a vertex: its id written in decimal.
fn decimal_label(id: u32) -> (label: String)
    ensures
        label@ == decimal(id as nat),
    decreases id,
{
    if id < 10 {
        String::from_str(digit_text(id))
    } else {
        let mut text = decimal_label(id / 10);
        text.append(digit_text(id % 10));
        text
    }
}

/// The edge joins `a` and `b`, in either direction.
pub open spec fn edge_joins(e: (u32, u32, u32), a: u32, b: u32) -> bool {
    (e.1 == a && e.2 == b) || (e.1 == b && e.2 == a)
}

/// Some edge of `edges` joins `a` and `b`.
pub open spec fn joined(edges: Seq<(u32, u32, u32)>, a: u32, b: u32) -> bool {
    exists|k: int| 0 <= k < edges.len() && #[trigger] edge_joins(edges[k], a, b)
}

/// The edge `e` touches the vertex `id`.
pub open spec fn edge_touches(e: (u32, u32, u32), id: u32) -> bool {
    e.1 == id || e.2 == id
}

/// Keeps every vertex id but `id`.
pub open spec fn other_vertex(id: u32) -> spec_fn(u32) -> bool {
    |v: u32| v != id
}

/// Keeps the edges that do not touch the vertex `id`.
pub open spec fn away_from(id: u32) -> spec_fn((u32, u32, u32)) -> bool {
    |e: (u32, u32, u32)| !edge_touches(e, id)
}

/// Keeps every edge but the one with id `id`.
pub open spec fn other_edge(id: u32) -> spec_fn((u32, u32, u32)) -> bool {
    |e: (u32, u32, u32)| e.0 != id
}

impl GraphModel {
    /// The graph with no vertex and no edge, counters at zero.
    pub open spec fn empty() -> GraphModel {
        GraphModel { vertex_ids: seq![], edges: seq![], next_vertex_id: 0, next_edge_id: 0 }
    }

    pub open spec fn has_vertex(self, id: u32) -> bool {
        self.vertex_ids.contains(id)
    }

    /// The invariant kept by every operation: ids are unique and below their
    /// counter, every edge joins two distinct existing vertices, and no two
    /// edges join the same pair.
    pub open spec fn wf(self) -> bool {
        &&& self.next_vertex_id <= u32::MAX
        &&& self.next_edge_id <= u32::MAX
        &&& self.vertex_ids.len() <= self.next_vertex_id
        &&& self.edges.len() <= self.next_edge_id
        &&& self.vertex_ids.no_duplicates()
        &&& forall|i: int| 0 <= i < self.vertex_ids.len() ==> #[trigger] self.vertex_ids[i] < self.next_vertex_id
        &&& forall|k: int| 0 <= k < self.edges.len() ==> #[trigger] self.edges[k].0 < self.next_edge_id
        &&& forall|k: int, l: int|
            0 <= k < self.edges.len() && 0 <= l < self.edges.len() && k != l
                ==> #[trigger] self.edges[k].0 != #[trigger] self.edges[l].0
        &&& forall|k: int|
            0 <= k < self.edges.len() ==> {
                let e = #[trigger] self.edges[k];
                &&& e.1 != e.2
                &&& self.has_vertex(e.1)
                &&& self.has_vertex(e.2)
            }
        &&& forall|k: int, l: int|
            0 <= k < self.edges.len() && 0 <= l < self.edges.len() && k != l
                ==> !edge_joins(#[trigger] self.edges[k], #[trigger] self.edges[l].1, self.edges[l].2)
    }

    /// `add_edge` accepts the pair: two distinct existing vertices not yet
    /// joined.
    pub open spec fn accepts_edge(self, from: u32, to: u32) -> bool {
        &&& from != to
        &&& self.has_vertex(from)
        &&& self.has_vertex(to)
        &&& !joined(self.edges, from, to)
    }

    /// The graph after `add_vertex`.
    pub open spec fn add_vertex(self) -> GraphModel {
        GraphModel {
            vertex_ids: self.vertex_ids.push(self.next_vertex_id as u32),
            next_vertex_id: self.next_vertex_id + 1,
            ..self
        }
    }

    /// The graph after `add_edge(from, to)`: the edge is appended with the
    /// next edge id when accepted, and nothing changes otherwise.
    pub open spec fn add_edge(self, from: u32, to: u32) -> GraphModel {
        if self.accepts_edge(from, to) {
            GraphModel {
                edges: self.edges.push((self.next_edge_id as u32, from, to)),
                next_edge_id: self.next_edge_id + 1,
                ..self
            }
        } else {
            self
        }
    }

    /// The graph after `delete_vertex(id)`: the vertex and every edge that
    /// touches it are gone.
    pub open spec fn delete_vertex(self, id: u32) -> GraphModel {
        GraphModel {
            vertex_ids: self.vertex_ids.filter(other_vertex(id)),
            edges: self.edges.filter(away_from(id)),
            ..self
        }
    }

    /// The graph after `delete_edge(id)`: the edge with that id is gone.
    pub open spec fn delete_edge(self, id: u32) -> GraphModel {
        GraphModel { edges: self.edges.filter(other_edge(id)), ..self }
    }
}

/// The adjacency matrix of a graph: entry `(i, j)` says whether an edge
/// joins the `i`-th and the `j`-th vertex.
pub open spec fn adjacency(g: GraphModel) -> Seq<Seq<bool>> {
    Seq::new(
        g.vertex_ids.len(),
        |i: int| Seq::new(g.vertex_ids.len(), |j: int| joined(g.edges, g.vertex_ids[i], g.vertex_ids[j])),
    )
}

impl View for Graph {
    type V = GraphModel;

    closed spec fn view(&self) -> GraphModel {
        GraphModel {
            vertex_ids: ids_of(self.vertices@),
            edges: triples_of(self.edges@),
            next_vertex_id: self.next_vertex_id as nat,
            next_edge_id: self.next_edge_id as nat,
        }
    }
}

impl Graph {
    /// Every vertex is labelled with its id in decimal.
    pub closed spec fn labels_match(&self) -> bool {
        forall|i: int|
            0 <= i < self.vertices@.len() ==> #[trigger] self.vertices@[i].label@ == decimal(
                self.vertices@[i].id as nat,
            )
    }

    /// The model invariant, with every vertex labelled by its id.
    pub open spec fn wf(&self) -> bool {
        &&& self@.wf()
        &&& self.labels_match()
    }

    /// An empty graph.
    pub fn new() -> (g: Graph)
        ensures
            g.wf(),
            g@ == GraphModel::empty(),
    {
        let g = Graph { vertices: Vec::new(), edges: Vec::new(), next_vertex_id: 0, next_edge_id: 0 };
        assert(g@.vertex_ids =~= seq![]);
        assert(g@.edges =~= seq![]);
        g
    }

    /// Adds a vertex with a fresh id, labelled with that id, and returns the
    /// id.
    pub fn add_vertex(&mut self) -> (id: u32)
        requires
            old(self).wf(),
            old(self)@.next_vertex_id < u32::MAX,
        ensures
            final(self).wf(),
            id == old(self)@.next_vertex_id,
            final(self)@ == old(self)@.add_vertex(),
    {
        let id = self.next_vertex_id;
        let label = decimal_label(id);
        self.next_vertex_id = self.next_vertex_id + 1;
        let ghost before = self.vertices@;
        self.vertices.push(Vertex { id, label });
        proof {
            assert(ids_of(self.vertices@) =~= ids_of(before).push(id));
            let ids = self@.vertex_ids;
            assert forall|a: int, b: int| 0 <= a < b < ids.len() implies ids[a] != ids[b] by {
                if b == ids.len() - 1 {
                    assert(ids[a] < id);
                }
            }
            assert forall|k: int|
                0 <= k < self@.edges.len() && old(self)@.has_vertex(
                    #[trigger] self@.edges[k].1,
                ) implies self@.has_vertex(self@.edges[k].1) by {
                let j = choose|j: int|
                    0 <= j < old(self)@.vertex_ids.len() && old(self)@.vertex_ids[j]
                        == self@.edges[k].1;
                assert(self@.vertex_ids[j] == self@.edges[k].1);
            }
            assert forall|k: int|
                0 <= k < self@.edges.len() && old(self)@.has_vertex(
                    #[trigger] self@.edges[k].2,
                ) implies self@.has_vertex(self@.edges[k].2) by {
                let j = choose|j: int|
                    0 <= j < old(self)@.vertex_ids.len() && old(self)@.vertex_ids[j]
                        == self@.edges[k].2;
                assert(self@.vertex_ids[j] == self@.edges[k].2);
            }
        }
        id
    }

    /// Whether the vertex exists.
    fn contains_vertex(&self, id: u32) -> (found: bool)
        ensures
            found == self@.has_vertex(id),
    {
        let mut i: usize = 0;
        while i < self.vertices.len()
            invariant
                i <= self.vertices@.len(),
                forall|j: int| 0 <= j < i ==> #[trigger] self.vertices@[j].id != id,
            decreases self.vertices@.len() - i,
        {
            if self.vertices[i].id == id {
                assert(self@.vertex_ids[i as int] == id);
                return true;
            }
            i = i + 1;
        }
        proof {
            if self@.has_vertex(id) {
                let j = choose|j: int| 0 <= j < self@.vertex_ids.len() && self@.vertex_ids[j] == id;
                assert(self.vertices@[j].id == id);
            }
        }
        false
    }

    /// Whether `add_edge(from, to)` would add an edge: the two vertices are
    /// distinct, both exist, and no edge joins them yet in either direction.
    pub fn accepts_edge(&self, from: u32, to: u32) -> (accepted: bool)
        ensures
            accepted == self@.accepts_edge(from, to),
    {
        if from == to {
            return false;
        }
        let from_ok = self.contains_vertex(from);
        let to_ok = self.contains_vertex(to);
        if !from_ok || !to_ok {
            return false;
        }
        let mut k: usize = 0;
        while k < self.edges.len()
            invariant
                k <= self.edges@.len(),
                forall|j: int| 0 <= j < k ==> !#[trigger] edge_joins(self@.edges[j], from, to),
            decreases self.edges@.len() - k,
        {
            let e = &self.edges[k];
            if (e.from == from && e.to == to) || (e.from == to && e.to == from) {
                assert(edge_joins(self@.edges[k as int], from, to));
                return false;
            }
            k = k + 1;
        }
        true
    }

    /// Adds an edge between two distinct existing vertices that are not yet
    /// joined, and says whether it did; otherwise the graph is unchanged.
    pub fn add_edge(&mut self, from: u32, to: u32) -> (added: bool)
        requires
            old(self).wf(),
            old(self)@.accepts_edge(from, to) ==> old(self)@.next_edge_id < u32::MAX,
        ensures
            final(self).wf(),
            added == old(self)@.accepts_edge(from, to),
            final(self)@ == old(self)@.add_edge(from, to),
    {
        if !self.accepts_edge(from, to) {
            return false;
        }
        let id = self.next_edge_id;
        self.next_edge_id = self.next_edge_id + 1;
        let ghost before = self.edges@;
        self.edges.push(Edge { id, from, to });
        proof {
            assert(triples_of(self.edges@) =~= triples_of(before).push((id, from, to)));
            let es = self@.edges;
            let n = es.len() - 1;
            assert forall|k: int, l: int|
                0 <= k < es.len() && 0 <= l < es.len() && k != l implies #[trigger] es[k].0
                != #[trigger] es[l].0 by {
                if k == n {
                    assert(es[l].0 < id);
                } else if l == n {
                    assert(es[k].0 < id);
                }
            }
            assert forall|k: int, l: int|
                0 <= k < es.len() && 0 <= l < es.len() && k != l implies !edge_joins(
                #[trigger] es[k],
                #[trigger] es[l].1,
                es[l].2,
            ) by {
                if k == n {
                    if edge_joins(es[k], es[l].1, es[l].2) {
                        assert(edge_joins(old(self)@.edges[l], from, to));
                    }
                } else if l == n {
                    if edge_joins(es[k], es[l].1, es[l].2) {
                        assert(edge_joins(old(self)@.edges[k], from, to));
                    }
                }
            }
        }
        true
    }

    /// Removes the vertex with this id, if any, and every edge that touches
    /// it.
    pub fn delete_vertex(&mut self, id: u32)
        requires
            old(self).wf(),
        ensures
            final(self).wf(),
            final(self)@ == old(self)@.delete_vertex(id),
    {
        let ghost old_model = self@;
        let ghost keep_v = other_vertex(id);
        let ghost keep_e = away_from(id);
        let mut vertices: Vec<Vertex> = Vec::new();
        let mut i: usize = 0;
        while i < self.vertices.len()
            invariant
                self@ == old_model,
                self.wf(),
                keep_v == other_vertex(id),
                i <= self.vertices@.len(),
                ids_of(vertices@) == old_model.vertex_ids.take(i as int).filter(
                    keep_v,
                ),
                forall|j: int|
                    0 <= j < vertices@.len() ==> #[trigger] vertices@[j].label@ == decimal(
                        vertices@[j].id as nat,
                    ),
            decreases self.vertices@.len() - i,
        {
            let ghost ids = old_model.vertex_ids;
            proof {
                assert(ids.take(i + 1) =~= ids.take(i as int).push(ids[i as int]));
                ids.take(i as int).lemma_filter_push(ids[i as int], keep_v);
            }
            let ghost before = vertices@;
            assert(self.vertices@[i as int].id == ids[i as int]);
            if self.vertices[i].id != id {
                let v = Vertex { id: self.vertices[i].id, label: self.vertices[i].label.clone() };
                vertices.push(v);
                proof {
                    assert(ids_of(vertices@) =~= ids_of(before).push(ids[i as int]));
                }
            }
            i = i + 1;
        }
        let mut edges: Vec<Edge> = Vec::new();
        let mut k: usize = 0;
        while k < self.edges.len()
            invariant
                self@ == old_model,
                keep_e == away_from(id),
                k <= self.edges@.len(),
                triples_of(edges@) == old_model.edges.take(
                    k as int,
                ).filter(keep_e),
            decreases self.edges@.len() - k,
        {
            let ghost es = old_model.edges;
            proof {
                assert(es.take(k + 1) =~= es.take(k as int).push(es[k as int]));
                es.take(k as int).lemma_filter_push(es[k as int], keep_e);
            }
            let ghost before = edges@;
            let e = &self.edges[k];
            assert((e.id, e.from, e.to) == es[k as int]);
            if e.from != id && e.to != id {
                edges.push(Edge { id: e.id, from: e.from, to: e.to });
                proof {
                    assert(triples_of(edges@) =~= triples_of(before).push(es[k as int]));
                }
            }
            k = k + 1;
        }
        proof {
            assert(old_model.vertex_ids.take(old_model.vertex_ids.len() as int)
                =~= old_model.vertex_ids);
            assert(old_model.edges.take(old_model.edges.len() as int) =~= old_model.edges);
        }
        self.vertices = vertices;
        self.edges = edges;
        proof {
            lemma_delete_vertex_wf(old_model, id);
        }
    }

    /// Removes the edge with this id, if any.
    pub fn delete_edge(&mut self, id: u32)
        requires
            old(self).wf(),
        ensures
            final(self).wf(),
            final(self)@ == old(self)@.delete_edge(id),
    {
        let ghost old_model = self@;
        let ghost keep_e = other_edge(id);
        let mut edges: Vec<Edge> = Vec::new();
        let mut k: usize = 0;
        while k < self.edges.len()
            invariant
                self@ == old_model,
                keep_e == other_edge(id),
                k <= self.edges@.len(),
                triples_of(edges@) == old_model.edges.take(
                    k as int,
                ).filter(keep_e),
            decreases self.edges@.len() - k,
        {
            let ghost es = old_model.edges;
            proof {
                assert(es.take(k + 1) =~= es.take(k as int).push(es[k as int]));
                es.take(k as int).lemma_filter_push(es[k as int], keep_e);
            }
            let ghost before = edges@;
            let e = &self.edges[k];
            assert((e.id, e.from, e.to) == es[k as int]);
            if e.id != id {
                edges.push(Edge { id: e.id, from: e.from, to: e.to });
                proof {
                    assert(triples_of(edges@) =~= triples_of(before).push(es[k as int]));
                }
            }
            k = k + 1;
        }
        proof {
            assert(old_model.edges.take(old_model.edges.len() as int) =~= old_model.edges);
        }
        self.edges = edges;
        proof {
            lemma_delete_edge_wf(old_model, id);
        }
    }

    /// The number of vertices.
    pub fn vertex_count(&self) -> (count: u32)
        requires
            self.wf(),
        ensures
            count == self@.vertex_ids.len(),
    {
        self.vertices.len() as u32
    }

    /// The number of edges.
    pub fn edge_count(&self) -> (count: u32)
        requires
            self.wf(),
        ensures
            count == self@.edges.len(),
    {
        self.edges.len() as u32
    }

    /// The vertices, in insertion order.
    pub fn vertices(&self) -> (vertices: &Vec<Vertex>)
        requires
            self.wf(),
        ensures
            ids_of(vertices@) == self@.vertex_ids,
            forall|i: int|
                0 <= i < vertices@.len() ==> #[trigger] vertices@[i].label@ == decimal(
                    vertices@[i].id as nat,
                ),
    {
        &self.vertices
    }

    /// The edges, in insertion order.
    pub fn edges(&self) -> (edges: &Vec<Edge>)
        ensures
            triples_of(edges@) == self@.edges,
    {
        &self.edges
    }

    /// Removes every vertex and edge and restarts both id counters at 0.
    pub(crate) fn clear(&mut self)
        ensures
            final(self).wf(),
            final(self)@ == GraphModel::empty(),
    {
        self.vertices = Vec::new();
        self.edges = Vec::new();
        self.next_vertex_id = 0;
        self.next_edge_id = 0;
        assert(self@.vertex_ids =~= seq![]);
        assert(self@.edges =~= seq![]);
    }

    /// The number of vertices and the adjacency matrix, vertices taken in
    /// insertion order.
    pub fn build_adj(&self) -> (result: (usize, Vec<Vec<bool>>))
        requires
            self.wf(),
        ensures
            result.0 == self@.vertex_ids.len(),
            result.1.deep_view() =~~= adjacency(self@),
    {
        let ghost g = self@;
        let ghost ids = g.vertex_ids;
        let n = self.vertices.len();
        let mut id_to_idx: HashMap<u32, usize> = HashMap::new();
        let mut i: usize = 0;
        while i < n
            invariant
                g == self@,
                ids == g.vertex_ids,
                n == ids.len(),
                i <= n,
                forall|id: u32|
                    #[trigger] id_to_idx@.contains_key(id) <==> exists|j: int|
                        0 <= j < i && ids[j] == id,
                forall|id: u32|
                    #[trigger] id_to_idx@.contains_key(id) ==> id_to_idx@[id] < i
                        && ids[id_to_idx@[id] as int] == id,
            decreases n - i,
        {
            let id = self.vertices[i].id;
            assert(ids[i as int] == id);
            id_to_idx.insert(id, i);
            i = i + 1;
        }
        let mut adj: Vec<Vec<bool>> = Vec::new();
        let mut r: usize = 0;
        while r < n
            invariant
                r <= n,
                adj.len() == r,
                forall|a: int| 0 <= a < r ==> #[trigger] adj@[a]@ == Seq::new(n as nat, |j: int| false),
            decreases n - r,
        {
            let row: Vec<bool> = vec![false; n];
            adj.push(row);
            r = r + 1;
        }
        let mut k: usize = 0;
        while k < self.edges.len()
            invariant
                g == self@,
                g.wf(),
                ids == g.vertex_ids,
                n == ids.len(),
                k <= g.edges.len(),
                forall|id: u32|
                    #[trigger] id_to_idx@.contains_key(id) <==> exists|j: int|
                        0 <= j < n && ids[j] == id,
                forall|id: u32|
                    #[trigger] id_to_idx@.contains_key(id) ==> id_to_idx@[id] < n
                        && ids[id_to_idx@[id] as int] == id,
                adj.len() == n,
                forall|a: int| 0 <= a < n ==> #[trigger] adj@[a]@.len() == n,
                forall|a: int, b: int|
                    0 <= a < n && 0 <= b < n ==> #[trigger] adj@[a]@[b] == joined(
                        g.edges.take(k as int),
                        ids[a],
                        ids[b],
                    ),
            decreases g.edges.len() - k,
        {
            let e = &self.edges[k];
            let ghost t = g.edges[k as int];
            assert((e.id, e.from, e.to) == t);
            let ghost before = adj@;
            proof {
                assert(g.has_vertex(t.1) && g.has_vertex(t.2));
            }
            match (id_to_idx.get(&e.from), id_to_idx.get(&e.to)) {
                (Some(ip), Some(jp)) => {
                    let i = *ip;
                    let j = *jp;
                    adj[i].set(j, true);
                    adj[j].set(i, true);
                },
                _ => {},
            }
            proof {
                let pre = g.edges.take(k as int);
                let post = g.edges.take(k + 1);
                assert(post =~= pre.push(t));
                assert forall|a: int, b: int|
                    0 <= a < n && 0 <= b < n implies #[trigger] adj@[a]@[b] == joined(
                    post,
                    ids[a],
                    ids[b],
                ) by {
                    if joined(pre, ids[a], ids[b]) {
                        let q = choose|q: int| 0 <= q < pre.len() && #[trigger] edge_joins(pre[q], ids[a], ids[b]);
                        assert(edge_joins(post[q], ids[a], ids[b]));
                    }
                    if edge_joins(t, ids[a], ids[b]) {
                        assert(edge_joins(post[k as int], ids[a], ids[b]));
                    }
                    if joined(post, ids[a], ids[b]) {
                        let q = choose|q: int| 0 <= q < post.len() && #[trigger] edge_joins(post[q], ids[a], ids[b]);
                        if q < k {
                            assert(edge_joins(pre[q], ids[a], ids[b]));
                        }
                    }
                }
            }
            k = k + 1;
        }
        proof {
            assert(g.edges.take(g.edges.len() as int) =~= g.edges);
        }
        (n, adj)
    }

    /// The id the next added vertex will get.
    pub fn next_vertex_id(&self) -> (id: u32)
        ensures
            id == self@.next_vertex_id,
    {
        self.next_vertex_id
    }

    /// The id the next added edge will get.
    pub fn next_edge_id(&self) -> (id: u32)
        ensures
            id == self@.next_edge_id,
    {
        self.next_edge_id
    }
}

/// Filtering keeps what the predicate accepts, and nothing else.
pub proof fn lemma_filter_members<A>(s: Seq<A>, p: spec_fn(A) -> bool)
    ensures
        forall|x: A| #[trigger] s.filter(p).contains(x) <==> (s.contains(x) && p(x)),
        s.filter(p).len() <= s.len(),
{
    broadcast use vstd::seq_lib::group_filter_ensures;
    assert forall|x: A| #[trigger] s.filter(p).contains(x) <==> (s.contains(x) && p(x)) by {
        if s.contains(x) && p(x) {
            let i = choose|i: int| 0 <= i < s.len() && s[i] == x;
            s.lemma_filter_contains(p, i);
        }
        if s.filter(p).contains(x) {
            s.lemma_filter_contains_rev(p, x);
            let i = choose|i: int| 0 <= i < s.filter(p).len() && s.filter(p)[i] == x;
            s.lemma_filter_pred(p, i);
        }
    }
    s.lemma_filter_len(p);
}

/// A relation that holds between the items at any two distinct positions
/// still holds after filtering.
proof fn lemma_filter_pairwise<A>(s: Seq<A>, p: spec_fn(A) -> bool, r: spec_fn(A, A) -> bool)
    requires
        forall|k: int, l: int|
            0 <= k < s.len() && 0 <= l < s.len() && k != l ==> #[trigger] r(s[k], s[l]),
    ensures
        forall|k: int, l: int|
            0 <= k < s.filter(p).len() && 0 <= l < s.filter(p).len() && k != l ==> #[trigger] r(
                s.filter(p)[k],
                s.filter(p)[l],
            ),
    decreases s.len(),
{
    if s.len() > 0 {
        let init = s.drop_last();
        let x = s.last();
        assert forall|k: int, l: int|
            0 <= k < init.len() && 0 <= l < init.len() && k != l implies #[trigger] r(
            init[k],
            init[l],
        ) by {
            assert(r(s[k], s[l]));
        }
        lemma_filter_pairwise(init, p, r);
        assert(s =~= init.push(x));
        init.lemma_filter_push(x, p);
        lemma_filter_members(init, p);
        let f = init.filter(p);
        if p(x) {
            let g = f.push(x);
            assert forall|k: int, l: int|
                0 <= k < g.len() && 0 <= l < g.len() && k != l implies #[trigger] r(g[k], g[l]) by {
                if k == f.len() {
                    assert(f.contains(g[l]));
                    let j = choose|j: int| 0 <= j < init.len() && init[j] == g[l];
                    assert(r(s[s.len() - 1], s[j]));
                } else if l == f.len() {
                    assert(f.contains(g[k]));
                    let j = choose|j: int| 0 <= j < init.len() && init[j] == g[k];
                    assert(r(s[j], s[s.len() - 1]));
                } else {
                    assert(r(f[k], f[l]));
                }
            }
        }
    }
}

proof fn lemma_delete_vertex_wf(g: GraphModel, id: u32)
    requires
        g.wf(),
    ensures
        g.delete_vertex(id).wf(),
{
    let h = g.delete_vertex(id);
    let keep_v = other_vertex(id);
    let keep_e = away_from(id);
    lemma_filter_members(g.vertex_ids, keep_v);
    lemma_filter_members(g.edges, keep_e);
    let distinct = |a: u32, b: u32| a != b;
    lemma_filter_pairwise(g.vertex_ids, keep_v, distinct);
    let r1 = |a: (u32, u32, u32), b: (u32, u32, u32)| a.0 != b.0;
    let r2 = |a: (u32, u32, u32), b: (u32, u32, u32)| !edge_joins(a, b.1, b.2);
    assert forall|k: int, l: int|
        0 <= k < g.edges.len() && 0 <= l < g.edges.len() && k != l implies #[trigger] r1(
        g.edges[k],
        g.edges[l],
    ) && r2(g.edges[k], g.edges[l]) by {
        assert(g.edges[k].0 != g.edges[l].0);
        assert(!edge_joins(g.edges[k], g.edges[l].1, g.edges[l].2));
    }
    lemma_filter_pairwise(g.edges, keep_e, r1);
    lemma_filter_pairwise(g.edges, keep_e, r2);
    assert forall|a: int, b: int|
        0 <= a < h.vertex_ids.len() && 0 <= b < h.vertex_ids.len() && a != b implies h.vertex_ids[a]
        != h.vertex_ids[b] by {
        assert(distinct(h.vertex_ids[a], h.vertex_ids[b]));
    }
    assert forall|i: int| 0 <= i < h.vertex_ids.len() implies #[trigger] h.vertex_ids[i]
        < h.next_vertex_id by {
        assert(h.vertex_ids.contains(h.vertex_ids[i]));
    }
    assert forall|k: int| 0 <= k < h.edges.len() implies #[trigger] h.edges[k].0 < h.next_edge_id by {
        assert(h.edges.contains(h.edges[k]));
    }
    assert forall|k: int, l: int|
        0 <= k < h.edges.len() && 0 <= l < h.edges.len() && k != l implies #[trigger] h.edges[k].0
        != #[trigger] h.edges[l].0 by {
        assert(r1(h.edges[k], h.edges[l]));
    }
    assert forall|k: int, l: int|
        0 <= k < h.edges.len() && 0 <= l < h.edges.len() && k != l implies !edge_joins(
        #[trigger] h.edges[k],
        #[trigger] h.edges[l].1,
        h.edges[l].2,
    ) by {
        assert(r2(h.edges[k], h.edges[l]));
    }
    assert forall|k: int| 0 <= k < h.edges.len() implies {
        let e = #[trigger] h.edges[k];
        &&& e.1 != e.2
        &&& h.has_vertex(e.1)
        &&& h.has_vertex(e.2)
    } by {
        let e = h.edges[k];
        assert(h.edges.contains(e));
        let j = choose|j: int| 0 <= j < g.edges.len() && g.edges[j] == e;
        assert(g.has_vertex(e.1) && g.has_vertex(e.2));
    }
}

proof fn lemma_delete_edge_wf(g: GraphModel, id: u32)
    requires
        g.wf(),
    ensures
        g.delete_edge(id).wf(),
{
    let h = g.delete_edge(id);
    let keep_e = other_edge(id);
    lemma_filter_members(g.edges, keep_e);
    let r1 = |a: (u32, u32, u32), b: (u32, u32, u32)| a.0 != b.0;
    let r2 = |a: (u32, u32, u32), b: (u32, u32, u32)| !edge_joins(a, b.1, b.2);
    assert forall|k: int, l: int|
        0 <= k < g.edges.len() && 0 <= l < g.edges.len() && k != l implies #[trigger] r1(
        g.edges[k],
        g.edges[l],
    ) && r2(g.edges[k], g.edges[l]) by {
        assert(g.edges[k].0 != g.edges[l].0);
        assert(!edge_joins(g.edges[k], g.edges[l].1, g.edges[l].2));
    }
    lemma_filter_pairwise(g.edges, keep_e, r1);
    lemma_filter_pairwise(g.edges, keep_e, r2);
    assert forall|k: int| 0 <= k < h.edges.len() implies #[trigger] h.edges[k].0 < h.next_edge_id by {
        assert(h.edges.contains(h.edges[k]));
    }
    assert forall|k: int, l: int|
        0 <= k < h.edges.len() && 0 <= l < h.edges.len() && k != l implies #[trigger] h.edges[k].0
        != #[trigger] h.edges[l].0 by {
        assert(r1(h.edges[k], h.edges[l]));
    }
    assert forall|k: int, l: int|
        0 <= k < h.edges.len() && 0 <= l < h.edges.len() && k != l implies !edge_joins(
        #[trigger] h.edges[k],
        #[trigger] h.edges[l].1,
        h.edges[l].2,
    ) by {
        assert(r2(h.edges[k], h.edges[l]));
    }
    assert forall|k: int| 0 <= k < h.edges.len() implies {
        let e = #[trigger] h.edges[k];
        &&& e.1 != e.2
        &&& h.has_vertex(e.1)
        &&& h.has_vertex(e.2)
    } by {
        let e = h.edges[k];
        assert(h.edges.contains(e));
    }
}

} // verus!
