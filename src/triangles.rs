//! Exact triangle counting over the degree-ordered orientation of an
//! undirected graph, serial and over contiguous work-balanced partitions.

use vstd::prelude::*;
use crate::csr::{rows_valid, sorted_contains, strictly_ascending, Csr};
use crate::graph::{lemma_ascending_len, Graph, StaticGraph, Vertex};
use crate::partition::{lemma_prefix_mono, optimal_contiguous_partition, tiles, weight_prefix};
use rayon::iter::{IndexedParallelIterator, IntoParallelIterator, ParallelIterator};
use std::ops::Range;

verus! {

/// `b` ranks above `a` in the `(degree, id)` order.
pub open spec fn ranks_above(deg: Seq<u32>, a: u32, b: u32) -> bool {
    deg[b as int] > deg[a as int] || (deg[b as int] == deg[a as int] && b > a)
}

/// Degrees of a graph's vertices, the lengths of its rows.
pub open spec fn degrees_of(rows: Seq<Seq<u32>>) -> Seq<u32> {
    Seq::new(rows.len(), |u: int| rows[u].len() as u32)
}

/// The test "ranks above `u`" as a predicate on ids.
pub open spec fn above_pred(deg: Seq<u32>, u: u32) -> spec_fn(u32) -> bool {
    |v: u32| ranks_above(deg, u, v)
}

/// The neighbours of `u` that rank above it, ascending.
pub open spec fn dodg_row(rows: Seq<Seq<u32>>, u: int) -> Seq<u32> {
    rows[u].filter(above_pred(degrees_of(rows), u as u32))
}

/// The degree-ordered orientation: each edge kept once, at its lower-ranked
/// end.
pub open spec fn dodg_of(rows: Seq<Seq<u32>>) -> Seq<Seq<u32>> {
    Seq::new(rows.len(), |u: int| dodg_row(rows, u))
}

/// Rows of an oriented adjacency with a degree per vertex, as the counting
/// loops need them.
pub open spec fn oriented_ok(d: Seq<Seq<u32>>, deg: Seq<u32>) -> bool {
    rows_valid(d) && deg.len() == d.len()
}

/// The closure test of the wedge `(v, w)`: searched in the row of whichever
/// of the two ranks lower.
pub open spec fn closes(d: Seq<Seq<u32>>, deg: Seq<u32>, v: u32, w: u32) -> bool {
    if ranks_above(deg, w, v) {
        d[w as int].contains(v)
    } else {
        d[v as int].contains(w)
    }
}

/// Closed wedges `(s[i], s[k])` for `i < k < j`.
pub open spec fn closed_after(d: Seq<Seq<u32>>, deg: Seq<u32>, s: Seq<u32>, i: int, j: int) -> int
    decreases j - i,
{
    if j <= i + 1 {
        0
    } else {
        closed_after(d, deg, s, i, j - 1) + if closes(d, deg, s[i], s[j - 1]) {
            1int
        } else {
            0int
        }
    }
}

/// Closed wedges `(s[a], s[b])` with `a < i` and `a < b`.
pub open spec fn closed_prefix(d: Seq<Seq<u32>>, deg: Seq<u32>, s: Seq<u32>, i: int) -> int
    decreases i,
{
    if i <= 0 {
        0
    } else {
        closed_prefix(d, deg, s, i - 1) + closed_after(d, deg, s, i - 1, s.len() as int)
    }
}

/// Closed wedges at pivot `u`: pairs `i < j` of its row that close.
pub open spec fn pivot_closed(d: Seq<Seq<u32>>, deg: Seq<u32>, u: int) -> int {
    closed_prefix(d, deg, d[u], d[u].len() as int)
}

/// Closed wedges over the pivots `lo .. hi`.
pub open spec fn closed_range(d: Seq<Seq<u32>>, deg: Seq<u32>, lo: int, hi: int) -> int
    decreases hi - lo,
{
    if hi <= lo {
        0
    } else {
        closed_range(d, deg, lo, hi - 1) + pivot_closed(d, deg, hi - 1)
    }
}

/// Wedges over the pivots `0 .. k`: `C(len, 2)` for each row.
pub open spec fn wedge_prefix(d: Seq<Seq<u32>>, k: int) -> int
    decreases k,
{
    if k <= 0 {
        0
    } else {
        wedge_prefix(d, k - 1) + d[k - 1].len() * (d[k - 1].len() - 1) / 2
    }
}

/// The triangle count of a graph with adjacency `rows`.
pub open spec fn triangle_count(rows: Seq<Seq<u32>>) -> int {
    closed_range(dodg_of(rows), degrees_of(rows), 0, rows.len() as int)
}

/// The wedge count of a graph with adjacency `rows`.
pub open spec fn wedge_count(rows: Seq<Seq<u32>>) -> int {
    wedge_prefix(dodg_of(rows), rows.len() as int)
}

/// Filtering a strictly ascending sequence keeps it strictly ascending.
pub proof fn lemma_filter_ascending(s: Seq<u32>, p: spec_fn(u32) -> bool)
    requires
        strictly_ascending(s),
    ensures
        strictly_ascending(s.filter(p)),
        forall|x: u32| #[trigger] s.filter(p).contains(x) ==> s.contains(x),
    decreases s.len(),
{
    if s.len() > 0 {
        let t = s.drop_last();
        assert(strictly_ascending(t));
        lemma_filter_ascending(t, p);
        let f = t.filter(p);
        reveal(Seq::filter);
        assert(s.filter(p) == if p(s.last()) { f.push(s.last()) } else { f });
        assert forall|x: u32| #[trigger] f.contains(x) implies x < s.last() by {
            let k = choose|k: int| 0 <= k < t.len() && t[k] == x;
            assert(s[k] == x);
        }
        assert forall|x: u32| #[trigger] s.filter(p).contains(x) implies s.contains(x) by {
            if f.contains(x) {
                let k = choose|k: int| 0 <= k < t.len() && t[k] == x;
                assert(s[k] == x);
            } else {
                assert(x == s.last());
            }
        }
        if p(s.last()) {
            let g = f.push(s.last());
            assert forall|i: int, j: int| 0 <= i < j < g.len() implies g[i] < g[j] by {
                if j == g.len() - 1 {
                    assert(f.contains(f[i]));
                }
            }
        }
    }
}

/// The orientation of a valid adjacency is itself valid.
pub proof fn lemma_dodg_ok(rows: Seq<Seq<u32>>)
    requires
        rows_valid(rows),
    ensures
        oriented_ok(dodg_of(rows), degrees_of(rows)),
{
    let d = dodg_of(rows);
    assert forall|u: int| 0 <= u < d.len() implies #[trigger] strictly_ascending(d[u]) by {
        assert(strictly_ascending(rows[u]));
        lemma_filter_ascending(rows[u], above_pred(degrees_of(rows), u as u32));
    }
    assert forall|u: int, k: int| 0 <= u < d.len() && 0 <= k < d[u].len() implies (#[trigger] d[u][k])
        < d.len() by {
        assert(strictly_ascending(rows[u]));
        lemma_filter_ascending(rows[u], above_pred(degrees_of(rows), u as u32));
        assert(d[u].contains(d[u][k]));
        assert(rows[u].contains(d[u][k]));
    }
}

/// Read access to rows of ids, whatever holds them.
pub trait Rows {
    /// The rows held.
    spec fn rows(&self) -> Seq<Seq<u32>>;

    /// Row `u`.
    fn row_at(&self, u: usize) -> (r: &[u32])
        requires
            u < self.rows().len(),
        ensures
            r@ == self.rows()[u as int],
    ;
}

impl Rows for Vec<Vec<u32>> {
    open spec fn rows(&self) -> Seq<Seq<u32>> {
        Seq::new(self@.len(), |u: int| self@[u]@)
    }

    fn row_at(&self, u: usize) -> (r: &[u32]) {
        self[u].as_slice()
    }
}

/// A malformed adjacency shows no rows, so that no row can be asked of it.
impl Rows for Csr {
    open spec fn rows(&self) -> Seq<Seq<u32>> {
        if self.wf() {
            self@
        } else {
            Seq::empty()
        }
    }

    fn row_at(&self, u: usize) -> (r: &[u32]) {
        self.row(u)
    }
}

/// Closed wedges at pivot `u` of an oriented adjacency.
pub fn count_pivot<R: Rows>(dodg: &R, degrees: &Vec<u32>, u: usize) -> (r: u128)
    requires
        oriented_ok(dodg.rows(), degrees@),
        u < dodg.rows().len(),
    ensures
        r == pivot_closed(dodg.rows(), degrees@, u as int),
        r <= dodg.rows()[u as int].len() * dodg.rows()[u as int].len(),
{
    let ghost d = dodg.rows();
    let ghost deg = degrees@;
    let uvec = dodg.row_at(u);
    let ghost s = uvec@;
    let ulen = uvec.len();
    proof {
        assert(strictly_ascending(d[u as int]));
        assert forall|k: int| 0 <= k < s.len() implies s[k] < d.len() by {
            assert(d[u as int][k] < d.len());
        }
        lemma_ascending_len(s, d.len() as int);
        assert(ulen * ulen <= 0x1_0000_0000u128 * 0x1_0000_0000u128) by (nonlinear_arith)
            requires
                ulen <= 0x1_0000_0000u128,
        ;
    }
    let mut cnt: u128 = 0;
    let mut i: usize = 0;
    while i < ulen
        invariant
            s == uvec@,
            s == d[u as int],
            ulen == s.len(),
            ulen * ulen <= 0x1_0000_0000u128 * 0x1_0000_0000u128,
            d == dodg.rows(),
            deg == degrees@,
            oriented_ok(d, deg),
            u < d.len(),
            0 <= i <= ulen,
            cnt == closed_prefix(d, deg, s, i as int),
            cnt <= i * ulen,
        decreases ulen - i,
    {
        let v = uvec[i];
        proof {
            assert(d[u as int][i as int] < d.len());
        }
        let vvec = dodg.row_at(v as usize);
        let mut j: usize = i + 1;
        proof {
            assert(i * ulen + ulen == (i + 1) * ulen) by (nonlinear_arith);
            assert((i + 1) * ulen <= ulen * ulen) by (nonlinear_arith)
                requires
                    i + 1 <= ulen,
            ;
        }
        while j < ulen
            invariant
                s == uvec@,
                s == d[u as int],
                ulen == s.len(),
                d == dodg.rows(),
                deg == degrees@,
                oriented_ok(d, deg),
                u < d.len(),
                0 <= i < ulen,
                i + 1 <= j <= ulen,
                v == s[i as int],
                v < d.len(),
                vvec@ == d[v as int],
                cnt == closed_prefix(d, deg, s, i as int) + closed_after(d, deg, s, i as int, j as int),
                cnt <= i * ulen + (j - i - 1),
                (i + 1) * ulen <= ulen * ulen,
                i * ulen + ulen == (i + 1) * ulen,
                ulen * ulen <= 0x1_0000_0000u128 * 0x1_0000_0000u128,
            decreases ulen - j,
        {
            let w = uvec[j];
            proof {
                assert(d[u as int][j as int] < d.len());
                assert(strictly_ascending(d[w as int]));
                assert(strictly_ascending(d[v as int]));
            }
            let wvec = dodg.row_at(w as usize);
            let w_to_v = degrees[v as usize] > degrees[w as usize] || (degrees[v as usize]
                == degrees[w as usize] && v > w);
            if (w_to_v && sorted_contains(wvec, v)) || (!w_to_v && sorted_contains(vvec, w)) {
                cnt = cnt + 1;
            }
            j = j + 1;
        }
        i = i + 1;
    }
    cnt
}

/// The degree of `u` and its neighbours that rank above it, ascending.
pub fn oriented_row<G: Graph>(g: &G, u: Vertex) -> (r: (Vertex, Vec<Vertex>))
    requires
        g.valid(),
        u < g.out_adj().len(),
    ensures
        r.0 == degrees_of(g.out_adj())[u as int],
        r.1@ == dodg_row(g.out_adj(), u as int),
{
    let ghost rows = g.out_adj();
    let ghost p = above_pred(degrees_of(rows), u);
    proof {
        g.lemma_valid();
    }
    let degu = g.out_degree(u);
    let row = g.out_neighbors(u);
    let mut vvec: Vec<Vertex> = Vec::new();
    let mut k: usize = 0;
    while k < row.len()
        invariant
            g.valid(),
            rows == g.out_adj(),
            rows_valid(rows),
            u < rows.len(),
            row@ == rows[u as int],
            degu == rows[u as int].len(),
            p == above_pred(degrees_of(rows), u),
            0 <= k <= row@.len(),
            vvec@ == row@.subrange(0, k as int).filter(p),
        decreases row@.len() - k,
    {
        let v = row[k];
        proof {
            assert(rows[u as int][k as int] < rows.len());
        }
        let degv = g.out_degree(v);
        proof {
            reveal(Seq::filter);
            let t = row@.subrange(0, k + 1);
            assert(t.drop_last() =~= row@.subrange(0, k as int));
            assert(t.last() == v);
            assert(p(v) == (degv > degu || (degv == degu && v > u)));
        }
        if degv > degu || (degv == degu && v > u) {
            vvec.push(v);
        }
        k = k + 1;
    }
    assert(row@.subrange(0, row@.len() as int) =~= row@);
    (degu, vvec)
}

/// Counts triangles and wedges: over each pivot `u` and each pair `i < j` of
/// its oriented row, a wedge, and a triangle when the wedge closes.
pub fn triangles<G: Graph>(g: &G) -> (r: (u128, u128))
    requires
        g.valid(),
    ensures
        r.0 == triangle_count(g.out_adj()),
        r.1 == wedge_count(g.out_adj()),
{
    let ghost rows = g.out_adj();
    proof {
        g.lemma_valid();
    }
    let n = g.nv();
    let mut dodg: Vec<Vec<Vertex>> = Vec::with_capacity(n as usize);
    let mut degrees: Vec<Vertex> = Vec::new();
    let mut u: Vertex = 0;
    while u < n
        invariant
            g.valid(),
            rows == g.out_adj(),
            n == rows.len(),
            0 <= u <= n,
            dodg@.len() == u,
            degrees@ == degrees_of(rows).subrange(0, u as int),
            forall|k: int| 0 <= k < u ==> #[trigger] dodg@[k]@ == dodg_row(rows, k),
        decreases n - u,
    {
        let (degu, vvec) = oriented_row(g, u);
        degrees.push(degu);
        dodg.push(vvec);
        u = u + 1;
    }
    let ghost d = dodg_of(rows);
    let ghost deg = degrees_of(rows);
    proof {
        assert(degrees@ =~= deg);
        assert(dodg.rows() =~= d);
        lemma_dodg_ok(rows);
    }
    let mut ntri: u128 = 0;
    let mut nwedge: u128 = 0;
    let mut u: Vertex = 0;
    while u < n
        invariant
            rows == g.out_adj(),
            n == rows.len(),
            n <= u32::MAX,
            d == dodg_of(rows),
            deg == degrees_of(rows),
            dodg.rows() == d,
            degrees@ == deg,
            oriented_ok(d, deg),
            0 <= u <= n,
            ntri == closed_range(d, deg, 0, u as int),
            nwedge == wedge_prefix(d, u as int),
            ntri <= u * 0x1_0000_0000_0000_0000u128,
            nwedge <= u * 0x1_0000_0000_0000_0000u128,
        decreases n - u,
    {
        let c = count_pivot(&dodg, &degrees, u as usize);
        let len = dodg[u as usize].len() as u128;
        proof {
            assert(dodg.rows()[u as int] == dodg@[u as int]@);
            assert(len == d[u as int].len());
            assert(wedge_prefix(d, u + 1) == wedge_prefix(d, u as int) + len * (len - 1) / 2);
            assert(strictly_ascending(d[u as int]));
            assert forall|k: int| 0 <= k < d[u as int].len() implies d[u as int][k] < d.len() by {
                assert(d[u as int][k] < d.len());
            }
            lemma_ascending_len(d[u as int], d.len() as int);
            assert(len * len <= 0x1_0000_0000_0000_0000u128) by (nonlinear_arith)
                requires
                    len <= 0x1_0000_0000u128,
            ;
            assert(u * 0x1_0000_0000_0000_0000u128 + 0x1_0000_0000_0000_0000u128 == (u + 1)
                * 0x1_0000_0000_0000_0000u128) by (nonlinear_arith);
            assert((u + 1) * 0x1_0000_0000_0000_0000u128 <= 0x1_0000_0000u128
                * 0x1_0000_0000_0000_0000u128) by (nonlinear_arith)
                requires
                    u + 1 <= 0x1_0000_0000u128,
            ;
            if len > 0 {
                assert(len * (len - 1) / 2 <= len * len) by (nonlinear_arith)
                    requires
                        len > 0,
                ;
            }
        }
        ntri = ntri + c;
        let pairs: u128 = if len == 0 {
            0
        } else {
            len * (len - 1) / 2
        };
        proof {
            if len == 0 {
                assert(len * (len - 1) / 2 == 0) by (nonlinear_arith)
                    requires
                        len == 0,
                ;
            }
            assert(pairs == len * (len - 1) / 2);
        }
        nwedge = nwedge + pairs;
        u = u + 1;
    }
    (ntri, nwedge)
}

/// Number of partitions that the parallel counters split the pivots into.
pub const N_PARTITIONS: usize = 12;

/// Closed wedges summed over a list of pivot ranges.
pub open spec fn ranges_closed(d: Seq<Seq<u32>>, deg: Seq<u32>, parts: Seq<Range<usize>>) -> int
    decreases parts.len(),
{
    if parts.len() == 0 {
        0
    } else {
        ranges_closed(d, deg, parts.drop_last()) + closed_range(
            d,
            deg,
            parts.last().start as int,
            parts.last().end as int,
        )
    }
}

proof fn lemma_closed_after_bound(d: Seq<Seq<u32>>, deg: Seq<u32>, s: Seq<u32>, i: int, j: int)
    requires
        0 <= i,
    ensures
        0 <= closed_after(d, deg, s, i, j),
        closed_after(d, deg, s, i, j) <= if j > i { j - i } else { 0 },
    decreases j - i,
{
    if j > i + 1 {
        lemma_closed_after_bound(d, deg, s, i, j - 1);
    }
}

proof fn lemma_closed_prefix_bound(d: Seq<Seq<u32>>, deg: Seq<u32>, s: Seq<u32>, i: int)
    requires
        0 <= i,
    ensures
        0 <= closed_prefix(d, deg, s, i) <= i * s.len(),
    decreases i,
{
    if i > 0 {
        lemma_closed_prefix_bound(d, deg, s, i - 1);
        lemma_closed_after_bound(d, deg, s, i - 1, s.len() as int);
        assert((i - 1) * s.len() + s.len() == i * s.len()) by (nonlinear_arith);
    }
}

/// Closed wedges at one pivot of a valid orientation are at most `2^64`.
proof fn lemma_pivot_bound(d: Seq<Seq<u32>>, deg: Seq<u32>, u: int)
    requires
        oriented_ok(d, deg),
        0 <= u < d.len(),
    ensures
        0 <= pivot_closed(d, deg, u) <= 0x1_0000_0000_0000_0000,
{
    let s = d[u];
    assert(strictly_ascending(s));
    assert forall|k: int| 0 <= k < s.len() implies s[k] < d.len() by {
        assert(d[u][k] < d.len());
    }
    lemma_ascending_len(s, d.len() as int);
    lemma_closed_prefix_bound(d, deg, s, s.len() as int);
    let l = s.len() as int;
    assert(l * l <= 0x1_0000_0000_0000_0000) by (nonlinear_arith)
        requires
            0 <= l <= 0x1_0000_0000,
    ;
}

/// Closed wedges over pivots `lo .. hi` are at most `2^64` per pivot.
proof fn lemma_closed_range_bound(d: Seq<Seq<u32>>, deg: Seq<u32>, lo: int, hi: int)
    requires
        oriented_ok(d, deg),
        0 <= lo <= hi <= d.len(),
    ensures
        0 <= closed_range(d, deg, lo, hi) <= (hi - lo) * 0x1_0000_0000_0000_0000,
    decreases hi - lo,
{
    if lo < hi {
        lemma_closed_range_bound(d, deg, lo, hi - 1);
        lemma_pivot_bound(d, deg, hi - 1);
        assert((hi - 1 - lo) * 0x1_0000_0000_0000_0000 + 0x1_0000_0000_0000_0000 == (hi - lo)
            * 0x1_0000_0000_0000_0000) by (nonlinear_arith);
    }
}

/// Counting over `lo .. mid` and then `mid .. hi` counts over `lo .. hi`.
proof fn lemma_closed_range_split(d: Seq<Seq<u32>>, deg: Seq<u32>, lo: int, mid: int, hi: int)
    requires
        lo <= mid <= hi,
    ensures
        closed_range(d, deg, lo, mid) + closed_range(d, deg, mid, hi) == closed_range(d, deg, lo, hi),
    decreases hi - mid,
{
    if mid < hi {
        lemma_closed_range_split(d, deg, lo, mid, hi - 1);
    }
}

/// Per-range counts summed over any contiguous tiling of the pivots `0 .. n`
/// give the count over all of them: the parallel reduction agrees with the
/// serial count whatever the partitioning.
pub proof fn lemma_tiled_count_is_total(d: Seq<Seq<u32>>, deg: Seq<u32>, parts: Seq<Range<usize>>, n: int)
    requires
        tiles(parts, n),
    ensures
        ranges_closed(d, deg, parts) == closed_range(d, deg, 0, n),
    decreases parts.len(),
{
    let last = parts.last();
    if parts.len() == 1 {
        assert(parts.drop_last().len() == 0);
        assert(ranges_closed(d, deg, parts.drop_last()) == 0);
        assert(last == parts[0]);
    } else {
        let init = parts.drop_last();
        assert(init[init.len() - 1] == parts[parts.len() - 2]);
        assert(tiles(init, last.start as int)) by {
            assert forall|k: int| 0 <= k < init.len() implies (#[trigger] init[k]).start
                <= init[k].end by {
                assert(init[k] == parts[k]);
            }
            assert forall|k: int| 0 <= k < init.len() - 1 implies (#[trigger] init[k]).end
                == init[k + 1].start by {
                assert(init[k] == parts[k]);
                assert(init[k + 1] == parts[k + 1]);
            }
        }
        lemma_tiled_count_is_total(d, deg, init, last.start as int);
        assert(parts[parts.len() - 2].end == last.start);
        assert(0 <= last.start) by {
            lemma_tile_start(parts, n, parts.len() - 1);
        }
        lemma_closed_range_split(d, deg, 0, last.start as int, n);
    }
}

proof fn lemma_tile_start(parts: Seq<Range<usize>>, n: int, k: int)
    requires
        tiles(parts, n),
        0 <= k < parts.len(),
    ensures
        parts[k].start <= parts[k].end,
{
}

/// Closed wedges over the pivots `lo .. hi` of an oriented adjacency.
pub fn count_range<R: Rows>(dodg: &R, degrees: &Vec<u32>, lo: usize, hi: usize) -> (r: u128)
    requires
        oriented_ok(dodg.rows(), degrees@),
        lo <= hi <= dodg.rows().len(),
    ensures
        r == closed_range(dodg.rows(), degrees@, lo as int, hi as int),
{
    let ghost d = dodg.rows();
    let ghost deg = degrees@;
    let mut ntri: u128 = 0;
    let mut u: usize = lo;
    while u < hi
        invariant
            d == dodg.rows(),
            deg == degrees@,
            oriented_ok(d, deg),
            lo <= u <= hi <= d.len(),
            ntri == closed_range(d, deg, lo as int, u as int),
        decreases hi - u,
    {
        proof {
            lemma_closed_range_bound(d, deg, lo as int, u + 1);
            assert((u + 1 - lo) * 0x1_0000_0000_0000_0000 <= 0x1_0000_0000 * 0x1_0000_0000_0000_0000)
                by (nonlinear_arith)
                requires
                    u + 1 - lo <= 0x1_0000_0000,
            ;
            lemma_pivot_bound(d, deg, u as int);
        }
        let c = count_pivot(dodg, degrees, u);
        ntri = ntri + c;
        u = u + 1;
    }
    ntri
}

/// Relies on rayon's indexed `map` and `collect_into_vec`: the vector holds
/// the mapped item of each vertex, in vertex order.
#[verifier::external_body]
fn par_oriented_rows(g: &StaticGraph) -> (r: Vec<(Vertex, Vec<Vertex>)>)
    requires
        g.valid(),
    ensures
        r@.len() == g.out_adj().len(),
        forall|u: int|
            0 <= u < r@.len() ==> (#[trigger] r@[u]).0 == degrees_of(g.out_adj())[u] && r@[u].1@
                == dodg_row(g.out_adj(), u),
{
    let mut bigvec: Vec<(Vertex, Vec<Vertex>)> = Vec::with_capacity(g.nv() as usize);
    (0..g.nv()).into_par_iter().map(|u| oriented_row(g, u)).collect_into_vec(&mut bigvec);
    bigvec
}

/// Relies on rayon's `map` and `sum`: the sum of the count of each range.
#[verifier::external_body]
fn par_count_ranges<R: Rows + Sync>(dodg: &R, degrees: &Vec<u32>, parts: Vec<Range<usize>>) -> (r: u128)
    requires
        oriented_ok(dodg.rows(), degrees@),
        forall|k: int|
            0 <= k < parts@.len() ==> (#[trigger] parts@[k]).start <= parts@[k].end <= dodg.rows().len(),
        ranges_closed(dodg.rows(), degrees@, parts@) <= u128::MAX,
    ensures
        r == ranges_closed(dodg.rows(), degrees@, parts@),
{
    parts.into_par_iter().map(|p| count_range(dodg, degrees, p.start, p.end)).sum()
}

/// The sum of `weights` when it fits in a `usize`.
fn checked_total(weights: &Vec<usize>) -> (r: Option<usize>)
    ensures
        r matches Some(t) ==> t == weight_prefix(weights@, weights@.len() as int),
        r is None ==> weight_prefix(weights@, weights@.len() as int) > usize::MAX,
{
    let mut total: usize = 0;
    let mut i: usize = 0;
    while i < weights.len()
        invariant
            0 <= i <= weights@.len(),
            total == weight_prefix(weights@, i as int),
        decreases weights@.len() - i,
    {
        if total > usize::MAX - weights[i] {
            proof {
                lemma_prefix_mono(weights@, i + 1, weights@.len() as int);
            }
            return None;
        }
        total = total + weights[i];
        i = i + 1;
    }
    Some(total)
}

/// Work weights whose sum fits in a `usize`: `costs` where they fit, else one
/// unit per vertex.
fn fitting_weights(costs: Vec<usize>) -> (r: Vec<usize>)
    requires
        costs@.len() <= u32::MAX,
    ensures
        r@.len() == costs@.len(),
        weight_prefix(r@, r@.len() as int) <= usize::MAX,
        weight_prefix(costs@, costs@.len() as int) <= usize::MAX ==> r@ == costs@,
{
    match checked_total(&costs) {
        Some(_) => costs,
        None => {
            let n = costs.len();
            let mut ones: Vec<usize> = Vec::with_capacity(n);
            let mut i: usize = 0;
            while i < n
                invariant
                    n == costs@.len(),
                    n <= u32::MAX,
                    0 <= i <= n,
                    ones@.len() == i,
                    weight_prefix(ones@, i as int) == i,
                    forall|k: int| 0 <= k < i ==> ones@[k] == 1,
                decreases n - i,
            {
                let ghost old_ones = ones@;
                ones.push(1);
                proof {
                    lemma_prefix_same(ones@, old_ones, i as int);
                }
                i = i + 1;
            }
            ones
        },
    }
}

proof fn lemma_prefix_same(a: Seq<usize>, b: Seq<usize>, k: int)
    requires
        0 <= k <= a.len(),
        k <= b.len(),
        forall|j: int| 0 <= j < k ==> a[j] == b[j],
    ensures
        weight_prefix(a, k) == weight_prefix(b, k),
    decreases k,
{
    if k > 0 {
        lemma_prefix_same(a, b, k - 1);
    }
}

/// Counts triangles in parallel: the orientation is built per vertex in
/// parallel into a compressed sparse-row adjacency, the pivots are split into
/// contiguous ranges balanced by the squared length of their oriented rows,
/// and the per-range counts are summed.
pub fn threaded_triangles(g: &StaticGraph) -> (r: u128)
    requires
        g.valid(),
    ensures
        r == triangle_count(g.out_adj()),
{
    let ghost rows = g.out_adj();
    let ghost d = dodg_of(rows);
    let ghost deg = degrees_of(rows);
    proof {
        g.lemma_valid();
        lemma_dodg_ok(rows);
    }
    let bigvec = par_oriented_rows(g);
    let n = bigvec.len();
    let mut degs: Vec<Vertex> = Vec::with_capacity(n);
    let mut indptr: Vec<usize> = Vec::new();
    let mut indices: Vec<Vertex> = Vec::new();
    indptr.push(0);
    let mut k: usize = 0;
    while k < n
        invariant
            n == bigvec@.len() == rows.len(),
            d == dodg_of(rows),
            deg == degrees_of(rows),
            oriented_ok(d, deg),
            forall|u: int|
                0 <= u < n ==> (#[trigger] bigvec@[u]).0 == deg[u] && bigvec@[u].1@ == d[u],
            0 <= k <= n,
            degs@ == deg.subrange(0, k as int),
            indptr@.len() == k + 1,
            indptr@[0] == 0,
            indptr@[k as int] == indices@.len(),
            forall|a: int, b: int| 0 <= a <= b <= k ==> indptr@[a] <= indptr@[b],
            forall|u: int|
                0 <= u < k ==> #[trigger] indices@.subrange(indptr@[u] as int, indptr@[u + 1] as int)
                    == d[u],
        decreases n - k,
    {
        let row = &bigvec[k].1;
        degs.push(bigvec[k].0);
        let ghost before = indices@;
        let mut j: usize = 0;
        while j < row.len()
            invariant
                row@ == d[k as int],
                0 <= j <= row@.len(),
                indices@ == before + row@.subrange(0, j as int),
            decreases row@.len() - j,
        {
            indices.push(row[j]);
            j = j + 1;
        }
        assert(row@.subrange(0, row@.len() as int) =~= row@);
        indptr.push(indices.len());
        proof {
            assert(indices@.subrange(indptr@[k as int] as int, indptr@[k + 1] as int) =~= d[k as int]);
            assert forall|u: int|
                0 <= u < k implies #[trigger] indices@.subrange(indptr@[u] as int, indptr@[u + 1] as int)
                == d[u] by {
                assert(indices@.subrange(indptr@[u] as int, indptr@[u + 1] as int) =~= before.subrange(
                    indptr@[u] as int,
                    indptr@[u + 1] as int,
                ));
            }
        }
        k = k + 1;
    }
    proof {
        assert(degs@ =~= deg);
        assert(crate::csr::rows_of(indptr@, indices@) =~= d) by {
            assert forall|u: int| 0 <= u < d.len() implies crate::csr::rows_of(indptr@, indices@)[u]
                == d[u] by {
                assert(indices@.subrange(indptr@[u] as int, indptr@[u + 1] as int) == d[u]);
            }
        }
    }
    match Csr::new(indptr, indices) {
        // not taken: the arrays describe the orientation, which is valid
        Err(_) => 0,
        Ok(dodg) => {
            if n == 0 {
                return 0;
            }
            let mut costs: Vec<usize> = Vec::with_capacity(n);
            let mut u: usize = 0;
            while u < n
                invariant
                    dodg.wf(),
                    dodg@ == d,
                    n == d.len(),
                    n <= u32::MAX,
                    oriented_ok(d, deg),
                    0 <= u <= n,
                    costs@.len() == u,
                decreases n - u,
            {
                let len = dodg.row_len(u);
                let cost = match len.checked_mul(len) {
                    Some(c) => c,
                    None => usize::MAX,
                };
                costs.push(cost);
                u = u + 1;
            }
            let weights = fitting_weights(costs);
            let partitions = optimal_contiguous_partition(weights, N_PARTITIONS);
            proof {
                assert(dodg.rows() == d);
                lemma_tiled_count_is_total(d, deg, partitions@, n as int);
                lemma_closed_range_bound(d, deg, 0, n as int);
                assert(n * 0x1_0000_0000_0000_0000 <= 0x1_0000_0000 * 0x1_0000_0000_0000_0000)
                    by (nonlinear_arith)
                    requires
                        n <= 0x1_0000_0000,
                ;
                assert forall|k: int| 0 <= k < partitions@.len() implies (#[trigger] partitions@[k]).start
                    <= partitions@[k].end <= d.len() by {
                    lemma_tile_end(partitions@, n as int, k);
                }
            }
            par_count_ranges(&dodg, &degs, partitions)
        },
    }
}

/// Every range of a tiling ends within it.
proof fn lemma_tile_end(parts: Seq<Range<usize>>, n: int, k: int)
    requires
        tiles(parts, n),
        0 <= k < parts.len(),
    ensures
        parts[k].start <= parts[k].end <= n,
    decreases parts.len() - k,
{
    if k < parts.len() - 1 {
        lemma_tile_end(parts, n, k + 1);
    }
}

/// Counts triangles in parallel over the orientation held as one vector per
/// vertex, the pivots split into contiguous ranges balanced by the length of
/// their oriented rows.
pub fn threaded_triangles_csr(g: &StaticGraph) -> (r: u128)
    requires
        g.valid(),
    ensures
        r == triangle_count(g.out_adj()),
{
    let ghost rows = g.out_adj();
    let ghost d = dodg_of(rows);
    let ghost deg = degrees_of(rows);
    proof {
        g.lemma_valid();
        lemma_dodg_ok(rows);
    }
    let bigvec = par_oriented_rows(g);
    let n = bigvec.len();
    let mut degrees: Vec<Vertex> = Vec::with_capacity(n);
    let mut dodg: Vec<Vec<Vertex>> = Vec::with_capacity(n);
    let mut bigvec = bigvec;
    let ghost big = bigvec@;
    let mut reversed: Vec<(Vertex, Vec<Vertex>)> = Vec::with_capacity(n);
    while bigvec.len() > 0
        invariant
            n == big.len(),
            bigvec@.len() + reversed@.len() == n,
            forall|t: int| 0 <= t < bigvec@.len() ==> #[trigger] bigvec@[t] == big[t],
            forall|t: int| 0 <= t < reversed@.len() ==> #[trigger] reversed@[t] == big[n - 1 - t],
        decreases bigvec@.len(),
    {
        let item = bigvec.pop().unwrap();
        reversed.push(item);
    }
    let mut k: usize = 0;
    while k < n
        invariant
            n == big.len() == rows.len(),
            n <= u32::MAX,
            d == dodg_of(rows),
            deg == degrees_of(rows),
            forall|u: int| 0 <= u < n ==> (#[trigger] big[u]).0 == deg[u] && big[u].1@ == d[u],
            0 <= k <= n,
            reversed@.len() == n - k,
            forall|t: int| 0 <= t < n - k ==> #[trigger] reversed@[t] == big[n - 1 - t],
            degrees@ == deg.subrange(0, k as int),
            dodg@.len() == k,
            forall|u: int| 0 <= u < k ==> (#[trigger] dodg@[u])@ == d[u],
        decreases n - k,
    {
        let (degu, vvec) = reversed.pop().unwrap();
        degrees.push(degu);
        dodg.push(vvec);
        k = k + 1;
    }
    proof {
        assert(degrees@ =~= deg);
        assert(dodg.rows() =~= d);
    }
    if n == 0 {
        return 0;
    }
    let mut weights: Vec<usize> = Vec::with_capacity(n);
    let mut u: usize = 0;
    while u < n
        invariant
            dodg.rows() == d,
            n == d.len(),
            n <= u32::MAX,
            0 <= u <= n,
            weights@.len() == u,
        decreases n - u,
    {
        weights.push(dodg[u].len());
        u = u + 1;
    }
    let weights = fitting_weights(weights);
    let partitions = optimal_contiguous_partition(weights, N_PARTITIONS);
    proof {
        lemma_tiled_count_is_total(d, deg, partitions@, n as int);
        lemma_closed_range_bound(d, deg, 0, n as int);
        assert(n * 0x1_0000_0000_0000_0000 <= 0x1_0000_0000 * 0x1_0000_0000_0000_0000)
            by (nonlinear_arith)
            requires
                n <= 0x1_0000_0000,
        ;
        assert forall|k: int| 0 <= k < partitions@.len() implies (#[trigger] partitions@[k]).start
            <= partitions@[k].end <= d.len() by {
            lemma_tile_end(partitions@, n as int, k);
        }
    }
    par_count_ranges(&dodg, &degrees, partitions)
}

/// Membership in a filtered sequence.
proof fn lemma_filter_member(s: Seq<u32>, p: spec_fn(u32) -> bool, x: u32)
    ensures
        s.filter(p).contains(x) <==> s.contains(x) && p(x),
{
    if s.filter(p).contains(x) {
        s.lemma_filter_contains_rev(p, x);
        let i = choose|i: int| 0 <= i < s.filter(p).len() && s.filter(p)[i] == x;
        s.lemma_filter_pred(p, i);
    }
    if s.contains(x) && p(x) {
        let i = choose|i: int| 0 <= i < s.len() && s[i] == x;
        s.lemma_filter_contains(p, i);
    }
}

/// In an undirected graph the closure test of a wedge with distinct ends
/// `v` and `w` succeeds exactly when `v` and `w` are adjacent: the triangle
/// count is the number of wedges over each pivot's higher-ranked neighbours
/// whose ends are joined by an edge.
pub proof fn lemma_wedge_closes_iff_adjacent(g: &StaticGraph, v: Vertex, w: Vertex)
    requires
        g.valid(),
        v < g.out_adj().len(),
        w < g.out_adj().len(),
        v != w,
    ensures
        closes(dodg_of(g.out_adj()), degrees_of(g.out_adj()), v, w) <==> g.out_adj()[v as int].contains(w),
{
    let rows = g.out_adj();
    let deg = degrees_of(rows);
    crate::graph::lemma_undirected_symmetric(g, v, w);
    if ranks_above(deg, w, v) {
        lemma_filter_member(rows[w as int], above_pred(deg, w), v);
    } else {
        lemma_filter_member(rows[v as int], above_pred(deg, v), w);
    }
}

} // verus!
