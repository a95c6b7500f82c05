//! Undirected and directed graph views over compressed sparse-row adjacencies.

use vstd::prelude::*;
use crate::csr::{
    ids_below, is_vertex_count, rows_valid, strictly_ascending, total_len, Csr, GraphError,
};

verus! {

/// A vertex id; valid ids form the prefix `[0, nv)`.
pub type Vertex = u32;

/// Every row of `rows` is also listed, the other way round, in `back`:
/// `v` is in row `u` of `rows` exactly when `u` is in row `v` of `back`.
pub open spec fn transposed(rows: Seq<Seq<u32>>, back: Seq<Seq<u32>>) -> bool {
    &&& rows.len() == back.len()
    &&& forall|u: u32, v: u32|
        #![trigger rows[u as int].contains(v)]
        #![trigger back[v as int].contains(u)]
        u < rows.len() && v < rows.len() ==> (rows[u as int].contains(v) <==> back[v as int].contains(u))
}

/// A strictly ascending sequence of ids below `n` has at most `n` elements.
pub proof fn lemma_ascending_len(s: Seq<u32>, n: int)
    requires
        n >= 0,
        strictly_ascending(s),
        forall|k: int| 0 <= k < s.len() ==> s[k] < n,
    ensures
        s.len() <= n,
{
    assert forall|k: int| 0 <= k < s.len() implies s[k] >= k by {
        lemma_ascending_at_least_index(s, k);
    }
    if s.len() > 0 {
        assert(s[s.len() - 1] >= s.len() - 1);
        assert(s[s.len() - 1] < n);
    }
}

proof fn lemma_ascending_at_least_index(s: Seq<u32>, k: int)
    requires
        strictly_ascending(s),
        0 <= k < s.len(),
    ensures
        s[k] >= k,
    decreases k,
{
    if k > 0 {
        lemma_ascending_at_least_index(s, k - 1);
    }
}

/// The operations that the kernels need of a graph.
pub trait Graph: Sized {
    /// Out-neighbour lists, one per vertex.
    spec fn out_adj(&self) -> Seq<Seq<u32>>;

    /// In-neighbour lists, one per vertex.
    spec fn in_adj(&self) -> Seq<Seq<u32>>;

    /// The graph's invariant.
    spec fn valid(&self) -> bool;

    /// What the invariant gives: valid rows, and in-lists that transpose the
    /// out-lists.
    proof fn lemma_valid(&self)
        requires
            self.valid(),
        ensures
            rows_valid(self.out_adj()),
            rows_valid(self.in_adj()),
            transposed(self.out_adj(), self.in_adj()),
    ;

    /// Number of vertices.
    fn nv(&self) -> (r: Vertex)
        requires
            self.valid(),
        ensures
            r == self.out_adj().len(),
    ;

    /// Number of stored arcs: for an undirected graph both directions of each
    /// edge count.
    fn ne(&self) -> (r: usize)
        requires
            self.valid(),
        ensures
            r == total_len(self.out_adj()),
    ;

    /// The vertex ids `0 .. nv`, ascending.
    fn vertices(&self) -> (r: std::ops::Range<Vertex>)
        requires
            self.valid(),
        ensures
            r.start == 0,
            r.end == self.out_adj().len(),
    ;

    /// Number of in-neighbours of `v`.
    fn in_degree(&self, v: Vertex) -> (r: Vertex)
        requires
            self.valid(),
            v < self.out_adj().len(),
        ensures
            r == self.in_adj()[v as int].len(),
    ;

    /// Number of out-neighbours of `v`.
    fn out_degree(&self, v: Vertex) -> (r: Vertex)
        requires
            self.valid(),
            v < self.out_adj().len(),
        ensures
            r == self.out_adj()[v as int].len(),
    ;

    /// The in-neighbours of `v`, ascending.
    fn in_neighbors(&self, v: Vertex) -> (r: &[Vertex])
        requires
            self.valid(),
            v < self.out_adj().len(),
        ensures
            r@ == self.in_adj()[v as int],
    ;

    /// The out-neighbours of `v`, ascending.
    fn out_neighbors(&self, v: Vertex) -> (r: &[Vertex])
        requires
            self.valid(),
            v < self.out_adj().len(),
        ensures
            r@ == self.out_adj()[v as int],
    ;

    /// Whether the arc `u -> v` is stored, searching the shorter of the two
    /// candidate lists.
    fn has_edge(&self, u: Vertex, v: Vertex) -> (r: bool)
        requires
            self.valid(),
            u < self.out_adj().len(),
            v < self.out_adj().len(),
        ensures
            r == self.out_adj()[u as int].contains(v),
    ;
}

/// Row length as a vertex-width count: a valid row is no longer than the
/// number of vertices.
fn row_len_u32(m: &Csr, v: Vertex) -> (r: Vertex)
    requires
        m.wf(),
        v < m@.len(),
    ensures
        r == m@[v as int].len(),
{
    proof {
        assert(strictly_ascending(m@[v as int]));
        lemma_ascending_len(m@[v as int], m@.len() as int);
    }
    m.row_len(v as usize) as Vertex
}

/// An undirected graph: one adjacency holding both directions of each edge.
pub struct StaticGraph {
    adj: Csr,
}

/// A directed graph: a forward adjacency and its transpose.
pub struct StaticDiGraph {
    fadj: Csr,
    badj: Csr,
}

impl Graph for StaticGraph {
    closed spec fn out_adj(&self) -> Seq<Seq<u32>> {
        self.adj@
    }

    closed spec fn in_adj(&self) -> Seq<Seq<u32>> {
        self.adj@
    }

    closed spec fn valid(&self) -> bool {
        self.adj.wf() && transposed(self.adj@, self.adj@)
    }

    proof fn lemma_valid(&self) {
    }

    fn nv(&self) -> (r: Vertex) {
        self.adj.dim() as Vertex
    }

    fn ne(&self) -> (r: usize) {
        self.adj.n()
    }

    fn vertices(&self) -> (r: std::ops::Range<Vertex>) {
        0..self.nv()
    }

    /// Number of in-neighbours of `v`.
    fn in_degree(&self, v: Vertex) -> (r: Vertex) {
        row_len_u32(&self.adj, v)
    }

    fn out_degree(&self, v: Vertex) -> (r: Vertex) {
        row_len_u32(&self.adj, v)
    }

    fn in_neighbors(&self, v: Vertex) -> (r: &[Vertex]) {
        self.adj.row(v as usize)
    }

    fn out_neighbors(&self, v: Vertex) -> (r: &[Vertex]) {
        self.adj.row(v as usize)
    }

    fn has_edge(&self, u: Vertex, v: Vertex) -> (r: bool) {
        let d1 = self.out_degree(u);
        let d2 = self.out_degree(v);
        proof {
            assert(self.adj@[u as int].contains(v) <==> self.adj@[v as int].contains(u));
        }
        if d1 < d2 {
            self.adj.has_index(u as usize, v)
        } else {
            self.adj.has_index(v as usize, u)
        }
    }
}

impl Graph for StaticDiGraph {
    closed spec fn out_adj(&self) -> Seq<Seq<u32>> {
        self.fadj@
    }

    closed spec fn in_adj(&self) -> Seq<Seq<u32>> {
        self.badj@
    }

    closed spec fn valid(&self) -> bool {
        self.fadj.wf() && self.badj.wf() && transposed(self.fadj@, self.badj@)
    }

    proof fn lemma_valid(&self) {
    }

    fn nv(&self) -> (r: Vertex) {
        self.fadj.dim() as Vertex
    }

    fn ne(&self) -> (r: usize) {
        self.fadj.n()
    }

    fn vertices(&self) -> (r: std::ops::Range<Vertex>) {
        0..self.nv()
    }

    /// Number of in-neighbours of `v`.
    fn in_degree(&self, v: Vertex) -> (r: Vertex) {
        row_len_u32(&self.badj, v)
    }

    fn out_degree(&self, v: Vertex) -> (r: Vertex) {
        row_len_u32(&self.fadj, v)
    }

    fn in_neighbors(&self, v: Vertex) -> (r: &[Vertex]) {
        self.badj.row(v as usize)
    }

    fn out_neighbors(&self, v: Vertex) -> (r: &[Vertex]) {
        self.fadj.row(v as usize)
    }

    fn has_edge(&self, u: Vertex, v: Vertex) -> (r: bool) {
        let d1 = self.out_degree(u);
        let d2 = self.out_degree(v);
        proof {
            assert(self.fadj@[u as int].contains(v) <==> self.badj@[v as int].contains(u));
        }
        if d1 < d2 {
            self.fadj.has_index(u as usize, v)
        } else {
            self.badj.has_index(v as usize, u)
        }
    }
}

/// The vertex count of an edge bag is unique.
proof fn lemma_vertex_count_unique(e: Seq<(u32, u32)>, a: int, b: int)
    requires
        is_vertex_count(e, a),
        is_vertex_count(e, b),
    ensures
        a == b,
{
    if a < b {
        let k = choose|k: int| 0 <= k < e.len() && ((#[trigger] e[k]).0 == b - 1 || e[k].1 == b - 1);
        assert(e[k].0 < a && e[k].1 < a);
    } else if b < a {
        let k = choose|k: int| 0 <= k < e.len() && ((#[trigger] e[k]).0 == a - 1 || e[k].1 == a - 1);
        assert(e[k].0 < b && e[k].1 < b);
    }
}

impl StaticGraph {
    /// Builds an undirected graph: each edge `(u, v)` is stored as both
    /// `u -> v` and `v -> u`; loops and duplicates are accepted, duplicates
    /// collapse. Fails when an id is the sentinel `u32::MAX`.
    pub fn from_edges(edges: Vec<(Vertex, Vertex)>) -> (r: Result<StaticGraph, GraphError>)
        ensures
            r is Ok <==> ids_below(edges@, u32::MAX as int),
            r is Err ==> r == Err::<StaticGraph, GraphError>(GraphError::Malformed),
            r matches Ok(g) ==> {
                &&& g.valid()
                &&& is_vertex_count(edges@, g.out_adj().len() as int)
                &&& forall|u: int, v: u32|
                    0 <= u < g.out_adj().len() ==> (#[trigger] g.out_adj()[u].contains(v) <==> (
                    edges@.contains((u as u32, v)) || edges@.contains((v, u as u32))))
            },
    {
        let mut both: Vec<(Vertex, Vertex)> = Vec::new();
        let mut i: usize = 0;
        while i < edges.len()
            invariant
                0 <= i <= edges@.len(),
                both@.len() == 2 * i,
                forall|k: int| 0 <= k < i ==> #[trigger] both@[2 * k] == edges@[k],
                forall|k: int| 0 <= k < i ==> #[trigger] both@[2 * k + 1] == (edges@[k].1, edges@[k].0),
            decreases edges@.len() - i,
        {
            let (a, b) = edges[i];
            both.push((a, b));
            both.push((b, a));
            i = i + 1;
        }
        let ghost e = edges@;
        let ghost d = both@;
        proof {
            assert forall|k: int| 0 <= k < d.len() implies (#[trigger] d[k]) == e[k / 2] || d[k] == (
                e[k / 2].1,
                e[k / 2].0,
            ) by {
                if k % 2 == 0 {
                    assert(d[2 * (k / 2)] == e[k / 2]);
                } else {
                    assert(d[2 * (k / 2) + 1] == (e[k / 2].1, e[k / 2].0));
                }
            }
            assert(ids_below(d, u32::MAX as int) <==> ids_below(e, u32::MAX as int)) by {
                if ids_below(e, u32::MAX as int) {
                    assert forall|k: int| 0 <= k < d.len() implies (#[trigger] d[k]).0 < u32::MAX
                        && d[k].1 < u32::MAX by {
                        assert(e[k / 2].0 < u32::MAX && e[k / 2].1 < u32::MAX);
                    }
                }
                if ids_below(d, u32::MAX as int) {
                    assert forall|k: int| 0 <= k < e.len() implies (#[trigger] e[k]).0 < u32::MAX
                        && e[k].1 < u32::MAX by {
                        assert(d[2 * k] == e[k]);
                    }
                }
            }
        }
        match Csr::from_edges(both) {
            Err(x) => Err(x),
            Ok(adj) => {
                proof {
                    let n = adj@.len() as int;
                    assert forall|k: int| 0 <= k < e.len() implies (#[trigger] e[k]).0 < n && e[k].1
                        < n by {
                        assert(d[2 * k] == e[k]);
                    }
                    if n != 0 {
                        let k = choose|k: int|
                            0 <= k < d.len() && ((#[trigger] d[k]).0 == n - 1 || d[k].1 == n - 1);
                        assert(e[k / 2].0 == n - 1 || e[k / 2].1 == n - 1);
                    }
                    assert forall|u: u32, v: u32| u < n && v < n implies (#[trigger] d.contains((u, v))
                        <==> (e.contains((u, v)) || e.contains((v, u)))) by {
                        if d.contains((u, v)) {
                            let k = choose|k: int| 0 <= k < d.len() && d[k] == (u, v);
                            assert(e[k / 2] == (u, v) || e[k / 2] == (v, u));
                            assert(e.contains(e[k / 2]));
                        }
                        if e.contains((u, v)) {
                            let k = choose|k: int| 0 <= k < e.len() && e[k] == (u, v);
                            assert(d[2 * k] == (u, v));
                        }
                        if e.contains((v, u)) {
                            let k = choose|k: int| 0 <= k < e.len() && e[k] == (v, u);
                            assert(d[2 * k + 1] == (u, v));
                        }
                    }
                    assert forall|u: u32, v: u32| u < n && v < n implies (#[trigger] d.contains((u, v))
                        <==> d.contains((v, u))) by {
                        assert(d.contains((u, v)) <==> (e.contains((u, v)) || e.contains((v, u))));
                        assert(d.contains((v, u)) <==> (e.contains((v, u)) || e.contains((u, v))));
                    }
                    assert forall|u: u32, v: u32| u < n && v < n implies (adj@[u as int].contains(v)
                        <==> adj@[v as int].contains(u)) by {
                        assert(adj@[u as int].contains(v) <==> d.contains((u, v)));
                        assert(adj@[v as int].contains(u) <==> d.contains((v, u)));
                        assert(d.contains((u, v)) <==> d.contains((v, u)));
                    }
                    assert forall|u: int, v: u32|
                        0 <= u < n implies (#[trigger] adj@[u].contains(v) <==> (e.contains(
                        (u as u32, v),
                    ) || e.contains((v, u as u32)))) by {
                        if adj@[u].contains(v) {
                            let j = choose|j: int| 0 <= j < adj@[u].len() && adj@[u][j] == v;
                            assert(adj@[u][j] < n);
                        }
                        if e.contains((u as u32, v)) {
                            let k = choose|k: int| 0 <= k < e.len() && e[k] == (u as u32, v);
                            assert(e[k].1 < n);
                        }
                        if e.contains((v, u as u32)) {
                            let k = choose|k: int| 0 <= k < e.len() && e[k] == (v, u as u32);
                            assert(e[k].0 < n);
                        }
                        if v < n {
                            assert(d.contains((u as u32, v)) <==> (e.contains((u as u32, v))
                                || e.contains((v, u as u32))));
                        }
                    }
                }
                Ok(StaticGraph { adj })
            },
        }
    }
}

impl StaticDiGraph {
    /// Builds a directed graph: the forward adjacency holds each edge
    /// `(u, v)` as `u -> v`, the backward one as `v -> u`. Duplicates
    /// collapse. Fails when an id is the sentinel `u32::MAX`.
    pub fn from_edges(edges: Vec<(Vertex, Vertex)>) -> (r: Result<StaticDiGraph, GraphError>)
        ensures
            r is Ok <==> ids_below(edges@, u32::MAX as int),
            r is Err ==> r == Err::<StaticDiGraph, GraphError>(GraphError::Malformed),
            r matches Ok(g) ==> {
                &&& g.valid()
                &&& is_vertex_count(edges@, g.out_adj().len() as int)
                &&& forall|u: int, v: u32|
                    0 <= u < g.out_adj().len() ==> (#[trigger] g.out_adj()[u].contains(v)
                        <==> edges@.contains((u as u32, v)))
                &&& forall|v: int, u: u32|
                    0 <= v < g.out_adj().len() ==> (#[trigger] g.in_adj()[v].contains(u)
                        <==> edges@.contains((u, v as u32)))
            },
    {
        let mut rev: Vec<(Vertex, Vertex)> = Vec::new();
        let mut i: usize = 0;
        while i < edges.len()
            invariant
                0 <= i <= edges@.len(),
                rev@.len() == i,
                forall|k: int| 0 <= k < i ==> #[trigger] rev@[k] == (edges@[k].1, edges@[k].0),
            decreases edges@.len() - i,
        {
            let (a, b) = edges[i];
            rev.push((b, a));
            i = i + 1;
        }
        let ghost e = edges@;
        let ghost d = rev@;
        proof {
            assert(ids_below(d, u32::MAX as int) <==> ids_below(e, u32::MAX as int)) by {
                if ids_below(e, u32::MAX as int) {
                    assert forall|k: int| 0 <= k < d.len() implies (#[trigger] d[k]).0 < u32::MAX
                        && d[k].1 < u32::MAX by {
                        assert(e[k].0 < u32::MAX && e[k].1 < u32::MAX);
                    }
                }
                if ids_below(d, u32::MAX as int) {
                    assert forall|k: int| 0 <= k < e.len() implies (#[trigger] e[k]).0 < u32::MAX
                        && e[k].1 < u32::MAX by {
                        assert(d[k].0 < u32::MAX && d[k].1 < u32::MAX);
                    }
                }
            }
        }
        let f = Csr::from_edges(edges);
        let b = Csr::from_edges(rev);
        match (f, b) {
            (Ok(fadj), Ok(badj)) => {
                proof {
                    let n = fadj@.len() as int;
                    assert(is_vertex_count(d, n)) by {
                        assert forall|k: int| 0 <= k < d.len() implies (#[trigger] d[k]).0 < n
                            && d[k].1 < n by {
                            assert(e[k].0 < n && e[k].1 < n);
                        }
                        if n != 0 {
                            let k = choose|k: int|
                                0 <= k < e.len() && ((#[trigger] e[k]).0 == n - 1 || e[k].1 == n - 1);
                            assert(d[k].0 == n - 1 || d[k].1 == n - 1);
                        }
                    }
                    lemma_vertex_count_unique(d, n, badj@.len() as int);
                    assert forall|u: u32, v: u32| u < n && v < n implies (e.contains((u, v))
                        <==> d.contains((v, u))) by {
                        if e.contains((u, v)) {
                            let k = choose|k: int| 0 <= k < e.len() && e[k] == (u, v);
                            assert(d[k] == (v, u));
                        }
                        if d.contains((v, u)) {
                            let k = choose|k: int| 0 <= k < d.len() && d[k] == (v, u);
                            assert(e[k] == (u, v));
                        }
                    }
                    assert forall|u: u32, v: u32| u < n && v < n implies (fadj@[u as int].contains(v)
                        <==> badj@[v as int].contains(u)) by {
                        assert(fadj@[u as int].contains(v) <==> e.contains((u, v)));
                        assert(badj@[v as int].contains(u) <==> d.contains((v, u)));
                    }
                    assert forall|v: int, u: u32|
                        0 <= v < n implies (#[trigger] badj@[v].contains(u) <==> e.contains(
                        (u, v as u32),
                    )) by {
                        if badj@[v].contains(u) {
                            let j = choose|j: int| 0 <= j < badj@[v].len() && badj@[v][j] == u;
                            assert(badj@[v][j] < n);
                        }
                        if e.contains((u, v as u32)) {
                            let k = choose|k: int| 0 <= k < e.len() && e[k] == (u, v as u32);
                            assert(e[k].0 < n);
                            assert(d[k] == (v as u32, u));
                        }
                    }
                }
                Ok(StaticDiGraph { fadj, badj })
            },
            _ => Err(GraphError::Malformed),
        }
    }
}

/// Every out-neighbour list of a valid graph is strictly ascending.
pub proof fn lemma_out_neighbors_ascending<G: Graph>(g: &G, u: Vertex)
    requires
        g.valid(),
        u < g.out_adj().len(),
    ensures
        strictly_ascending(g.out_adj()[u as int]),
{
    g.lemma_valid();
}

/// In an undirected graph `v` is a neighbour of `u` exactly when `u` is a
/// neighbour of `v`.
pub proof fn lemma_undirected_symmetric(g: &StaticGraph, u: Vertex, v: Vertex)
    requires
        g.valid(),
        u < g.out_adj().len(),
        v < g.out_adj().len(),
    ensures
        g.out_adj()[u as int].contains(v) <==> g.out_adj()[v as int].contains(u),
{
    g.lemma_valid();
}

/// In a directed graph `v` is a forward neighbour of `u` exactly when `u` is
/// a backward neighbour of `v`.
pub proof fn lemma_directed_transpose(g: &StaticDiGraph, u: Vertex, v: Vertex)
    requires
        g.valid(),
        u < g.out_adj().len(),
        v < g.out_adj().len(),
    ensures
        g.out_adj()[u as int].contains(v) <==> g.in_adj()[v as int].contains(u),
{
    g.lemma_valid();
}

} // verus!
