//! Compressed sparse-row adjacency: per-vertex contiguous, strictly ascending
//! neighbour lists held in two flat arrays.

use vstd::prelude::*;

verus! {

/// A sequence in which every element is smaller than the next.
pub open spec fn strictly_ascending(s: Seq<u32>) -> bool {
    forall|i: int, j: int| 0 <= i < j < s.len() ==> s[i] < s[j]
}

/// Rows that make a valid adjacency: each strictly ascending, each id a row
/// index, and at most `u32::MAX` rows, so that every vertex id fits in a `u32`.
pub open spec fn rows_valid(rows: Seq<Seq<u32>>) -> bool {
    &&& rows.len() <= u32::MAX
    &&& forall|u: int| 0 <= u < rows.len() ==> #[trigger] strictly_ascending(rows[u])
    &&& forall|u: int, k: int|
        0 <= u < rows.len() && 0 <= k < rows[u].len() ==> (#[trigger] rows[u][k]) < rows.len()
}

/// Sum of the lengths of the first `k` rows.
pub open spec fn prefix_len(rows: Seq<Seq<u32>>, k: int) -> int
    decreases k,
{
    if k <= 0 {
        0
    } else {
        prefix_len(rows, k - 1) + rows[k - 1].len()
    }
}

/// Number of stored entries over all rows.
pub open spec fn total_len(rows: Seq<Seq<u32>>) -> int {
    prefix_len(rows, rows.len() as int)
}

/// Offsets that describe rows over a flat array of `n` entries.
pub open spec fn offsets_valid(indptr: Seq<usize>, n: int) -> bool {
    &&& indptr.len() >= 1
    &&& indptr[0] == 0
    &&& indptr[indptr.len() - 1] == n
    &&& forall|i: int, j: int| 0 <= i <= j < indptr.len() ==> indptr[i] <= indptr[j]
}

/// The rows that offsets and a flat array of ids describe.
pub open spec fn rows_of(indptr: Seq<usize>, indices: Seq<u32>) -> Seq<Seq<u32>> {
    Seq::new(
        (indptr.len() - 1) as nat,
        |u: int| indices.subrange(indptr[u] as int, indptr[u + 1] as int),
    )
}

/// Why a graph or an adjacency could not be built.
#[derive(Debug, PartialEq, Eq)]
pub enum GraphError {
    /// A line of an edge list is not two unsigned integers; holds the line.
    Parse(Vec<u8>),
    /// Offsets or ids handed in do not make a valid adjacency, or a vertex id
    /// is the sentinel `u32::MAX`.
    Malformed,
}

/// An immutable adjacency in compressed sparse-row form.
pub struct Csr {
    indptr: Vec<usize>,
    indices: Vec<u32>,
}

impl View for Csr {
    type V = Seq<Seq<u32>>;

    closed spec fn view(&self) -> Seq<Seq<u32>> {
        rows_of(self.indptr@, self.indices@)
    }
}

impl Csr {
    /// The flat arrays are consistent with the rows they describe.
    pub closed spec fn layout_ok(&self) -> bool {
        offsets_valid(self.indptr@, self.indices@.len() as int)
    }

    /// Well-formed: consistent layout and valid rows.
    pub open spec fn wf(&self) -> bool {
        self.layout_ok() && rows_valid(self@)
    }

    /// Number of rows.
    pub fn dim(&self) -> (r: usize)
        requires
            self.wf(),
        ensures
            r == self@.len(),
    {
        self.indptr.len() - 1
    }

    /// Builds an adjacency from offsets and a flat array of ids, checking
    /// that they describe valid rows.
    pub fn new(indptr: Vec<usize>, indices: Vec<u32>) -> (r: Result<Csr, GraphError>)
        ensures
            r is Ok <==> offsets_valid(indptr@, indices@.len() as int) && rows_valid(
                rows_of(indptr@, indices@),
            ),
            r is Err ==> r == Err::<Csr, GraphError>(GraphError::Malformed),
            r matches Ok(m) ==> m.wf() && m@ == rows_of(indptr@, indices@),
    {
        let np = indptr.len();
        if np == 0 || indptr[0] != 0 || indptr[np - 1] != indices.len() {
            return Err(GraphError::Malformed);
        }
        let nv = np - 1;
        if nv > u32::MAX as usize {
            return Err(GraphError::Malformed);
        }
        let mut i: usize = 1;
        while i < np
            invariant
                1 <= i <= np == indptr@.len(),
                forall|a: int, b: int| 0 <= a <= b < i ==> indptr@[a] <= indptr@[b],
            decreases np - i,
        {
            if indptr[i - 1] > indptr[i] {
                return Err(GraphError::Malformed);
            }
            i = i + 1;
        }
        assert(offsets_valid(indptr@, indices@.len() as int));
        let ghost rows = rows_of(indptr@, indices@);
        let mut u: usize = 0;
        while u < nv
            invariant
                nv + 1 == np == indptr@.len(),
                nv <= u32::MAX,
                u <= nv,
                offsets_valid(indptr@, indices@.len() as int),
                rows == rows_of(indptr@, indices@),
                forall|w: int| 0 <= w < u ==> #[trigger] strictly_ascending(rows[w]),
                forall|w: int, k: int|
                    0 <= w < u && 0 <= k < rows[w].len() ==> (#[trigger] rows[w][k]) < nv,
            decreases nv - u,
        {
            let lo = indptr[u];
            let hi = indptr[u + 1];
            assert(lo <= hi);
            let mut k: usize = lo;
            while k < hi
                invariant
                    lo <= k <= hi <= indices@.len(),
                    nv <= u32::MAX,
                    u < nv,
                    nv + 1 == np == indptr@.len(),
                    lo == indptr@[u as int],
                    hi == indptr@[u + 1],
                    offsets_valid(indptr@, indices@.len() as int),
                    rows == rows_of(indptr@, indices@),
                    forall|w: int| 0 <= w < u ==> #[trigger] strictly_ascending(rows[w]),
                    forall|w: int, k: int|
                        0 <= w < u && 0 <= k < rows[w].len() ==> (#[trigger] rows[w][k]) < nv,
                    forall|a: int| lo <= a < k ==> indices@[a] < nv,
                    forall|a: int, b: int| lo <= a < b < k ==> indices@[a] < indices@[b],
                decreases hi - k,
            {
                if indices[k] as usize >= nv {
                    proof {
                        assert(rows[u as int][k - lo] == indices@[k as int]);
                    }
                    return Err(GraphError::Malformed);
                }
                if k > lo && indices[k - 1] >= indices[k] {
                    proof {
                        assert(rows[u as int][k - 1 - lo] == indices@[k - 1]);
                        assert(rows[u as int][k - lo] == indices@[k as int]);
                        assert(!strictly_ascending(rows[u as int]));
                    }
                    return Err(GraphError::Malformed);
                }
                k = k + 1;
            }
            assert(strictly_ascending(rows[u as int]));
            u = u + 1;
        }
        Ok(Csr { indptr, indices })
    }

    /// Builds an adjacency from a bag of edges `(src, dst)`: row `u` holds,
    /// in ascending order and once each, the `dst` of every edge from `u`.
    /// There is one row for each id up to the largest that an edge names.
    /// Fails when an id is the sentinel `u32::MAX`.
    pub fn from_edges(edges: Vec<(u32, u32)>) -> (r: Result<Csr, GraphError>)
        ensures
            r is Ok <==> ids_below(edges@, u32::MAX as int),
            r is Err ==> r == Err::<Csr, GraphError>(GraphError::Malformed),
            r matches Ok(m) ==> {
                &&& m.wf()
                &&& is_vertex_count(edges@, m@.len() as int)
                &&& forall|u: int, v: u32|
                    0 <= u < m@.len() ==> (#[trigger] m@[u].contains(v) <==> edges@.contains(
                        (u as u32, v),
                    ))
            },
    {
        let mut nv: usize = 0;
        let mut i: usize = 0;
        while i < edges.len()
            invariant
                0 <= i <= edges@.len(),
                nv <= u32::MAX,
                ids_below(edges@.subrange(0, i as int), nv as int),
                nv == 0 || exists|k: int|
                    0 <= k < i && ((#[trigger] edges@[k]).0 == nv - 1 || edges@[k].1 == nv - 1),
            decreases edges@.len() - i,
        {
            let (a, b) = edges[i];
            if a == u32::MAX || b == u32::MAX {
                return Err(GraphError::Malformed);
            }
            let ghost old_nv = nv;
            if a as usize >= nv {
                nv = a as usize + 1;
            }
            if b as usize >= nv {
                nv = b as usize + 1;
            }
            proof {
                assert forall|k: int| 0 <= k < i + 1 implies (#[trigger] edges@.subrange(
                    0,
                    i + 1,
                )[k]).0 < nv && edges@.subrange(0, i + 1)[k].1 < nv by {
                    if k < i {
                        assert(edges@.subrange(0, i as int)[k] == edges@[k]);
                    }
                }
                if nv != old_nv {
                    assert(edges@[i as int].0 == nv - 1 || edges@[i as int].1 == nv - 1);
                }
            }
            i = i + 1;
        }
        assert(edges@.subrange(0, edges@.len() as int) =~= edges@);
        let ghost given = edges@;
        let mut sorted = edges;
        sort_pairs(&mut sorted);
        proof {
            given.to_multiset_ensures();
            sorted@.to_multiset_ensures();
            assert forall|k: int| 0 <= k < sorted@.len() implies (#[trigger] sorted@[k]).0 < nv
                && sorted@[k].1 < nv by {
                assert(sorted@.contains(sorted@[k]));
                assert(sorted@.to_multiset().count(sorted@[k]) > 0);
                assert(given.to_multiset().count(sorted@[k]) > 0);
                assert(given.contains(sorted@[k]));
            }
            if sorted@.len() > 0 {
                assert(sorted@[0].0 < nv);
            }
        }
        let ghost s = sorted@;
        let mut indptr: Vec<usize> = Vec::new();
        indptr.push(0);
        let mut indices: Vec<u32> = Vec::new();
        let mut i: usize = 0;
        while i < sorted.len()
            invariant
                s == sorted@,
                pairs_sorted(s),
                ids_below(s, nv as int),
                nv <= u32::MAX,
                0 <= i <= s.len(),
                s.len() > 0 ==> nv > 0,
                1 <= indptr@.len() <= nv + 1 || (nv == 0 && indptr@.len() == 1),
                indptr@[0] == 0,
                forall|a: int, b: int| 0 <= a <= b < indptr@.len() ==> indptr@[a] <= indptr@[b],
                indptr@[indptr@.len() - 1] <= indices@.len(),
                forall|k: int| 0 <= k < indices@.len() ==> indices@[k] < nv,
                forall|w: int|
                    0 <= w < indptr@.len() - 1 ==> #[trigger] strictly_ascending(
                        indices@.subrange(indptr@[w] as int, indptr@[w + 1] as int),
                    ),
                forall|w: int, v: u32|
                    0 <= w < indptr@.len() - 1 ==> (#[trigger] indices@.subrange(
                        indptr@[w] as int,
                        indptr@[w + 1] as int,
                    ).contains(v) <==> exists|k: int| 0 <= k < i && #[trigger] s[k] == (w as u32, v)),
                strictly_ascending(
                    indices@.subrange(indptr@[indptr@.len() - 1] as int, indices@.len() as int),
                ),
                forall|v: u32|
                    #[trigger] indices@.subrange(
                        indptr@[indptr@.len() - 1] as int,
                        indices@.len() as int,
                    ).contains(v) <==> exists|k: int|
                        0 <= k < i && #[trigger] s[k] == ((indptr@.len() - 1) as u32, v),
                forall|k: int| 0 <= k < i ==> (#[trigger] s[k]).0 <= indptr@.len() - 1,
                i > 0 ==> s[i - 1].0 == indptr@.len() - 1,
                i == 0 ==> indptr@.len() == 1,
                indices@.len() > indptr@[indptr@.len() - 1] ==> i > 0 && s[i - 1] == (
                    (indptr@.len() - 1) as u32,
                    indices@[indices@.len() - 1],
                ),
            decreases s.len() - i,
        {
            let (u, v) = sorted[i];
            proof {
                assert(s[i as int] == (u, v));
                if i > 0 {
                    assert(pair_le(s[i - 1], s[i as int]));
                    assert(indptr@.len() - 1 <= u);
                }
                assert(indptr@.len() <= u + 1);
            }
            while indptr.len() - 1 < u as usize
                invariant
                    s == sorted@,
                    pairs_sorted(s),
                    ids_below(s, nv as int),
                    nv <= u32::MAX,
                    0 <= i < s.len(),
                    s[i as int] == (u, v),
                    1 <= indptr@.len() <= u + 1,
                    indptr@[0] == 0,
                    forall|a: int, b: int|
                        0 <= a <= b < indptr@.len() ==> indptr@[a] <= indptr@[b],
                    indptr@[indptr@.len() - 1] <= indices@.len(),
                    forall|k: int| 0 <= k < indices@.len() ==> indices@[k] < nv,
                    forall|w: int|
                        0 <= w < indptr@.len() - 1 ==> #[trigger] strictly_ascending(
                            indices@.subrange(indptr@[w] as int, indptr@[w + 1] as int),
                        ),
                    forall|w: int, v: u32|
                        0 <= w < indptr@.len() - 1 ==> (#[trigger] indices@.subrange(
                            indptr@[w] as int,
                            indptr@[w + 1] as int,
                        ).contains(v) <==> exists|k: int|
                            0 <= k < i && #[trigger] s[k] == (w as u32, v)),
                    strictly_ascending(
                        indices@.subrange(indptr@[indptr@.len() - 1] as int, indices@.len() as int),
                    ),
                    forall|v: u32|
                        #[trigger] indices@.subrange(
                            indptr@[indptr@.len() - 1] as int,
                            indices@.len() as int,
                        ).contains(v) <==> exists|k: int|
                            0 <= k < i && #[trigger] s[k] == ((indptr@.len() - 1) as u32, v),
                    forall|k: int| 0 <= k < i ==> (#[trigger] s[k]).0 <= indptr@.len() - 1,
                    indices@.len() > indptr@[indptr@.len() - 1] ==> i > 0 && s[i - 1] == (
                        (indptr@.len() - 1) as u32,
                        indices@[indices@.len() - 1],
                    ),
                decreases u + 1 - indptr@.len(),
            {
                let ghost c = indptr@.len() - 1;
                let ghost old_ptr = indptr@;
                indptr.push(indices.len());
                proof {
                    assert forall|w: int|
                        0 <= w < indptr@.len() - 1 implies #[trigger] strictly_ascending(
                        indices@.subrange(indptr@[w] as int, indptr@[w + 1] as int),
                    ) by {
                        if w < c {
                            assert(indptr@[w] == old_ptr[w] && indptr@[w + 1] == old_ptr[w + 1]);
                        }
                    }
                    assert forall|w: int, x: u32|
                        0 <= w < indptr@.len() - 1 implies (#[trigger] indices@.subrange(
                        indptr@[w] as int,
                        indptr@[w + 1] as int,
                    ).contains(x) <==> exists|k: int|
                        0 <= k < i && #[trigger] s[k] == (w as u32, x)) by {
                        if w < c {
                            assert(indptr@[w] == old_ptr[w] && indptr@[w + 1] == old_ptr[w + 1]);
                        }
                    }
                    assert forall|x: u32|
                        #[trigger] indices@.subrange(
                            indptr@[indptr@.len() - 1] as int,
                            indices@.len() as int,
                        ).contains(x) <==> exists|k: int|
                            0 <= k < i && #[trigger] s[k] == ((indptr@.len() - 1) as u32, x) by {
                        if exists|k: int| 0 <= k < i && #[trigger] s[k] == ((indptr@.len() - 1) as u32, x) {
                            let k = choose|k: int| 0 <= k < i && #[trigger] s[k] == ((indptr@.len() - 1) as u32, x);
                            assert(s[k].0 <= c);
                        }
                    }
                }
            }
            let ghost c = indptr@.len() - 1;
            proof {
                if i > 0 {
                    assert(pair_le(s[i - 1], s[i as int]));
                }
                assert(c == u);
            }
            let start = indptr[indptr.len() - 1];
            let ghost old_ind = indices@;
            if indices.len() > start && indices[indices.len() - 1] == v {
                proof {
                    assert forall|w: int, x: u32|
                        0 <= w < indptr@.len() - 1 implies (#[trigger] indices@.subrange(
                        indptr@[w] as int,
                        indptr@[w + 1] as int,
                    ).contains(x) <==> exists|k: int|
                        0 <= k < i + 1 && #[trigger] s[k] == (w as u32, x)) by {
                        if exists|k: int| 0 <= k < i + 1 && #[trigger] s[k] == (w as u32, x) {
                            let k = choose|k: int| 0 <= k < i + 1 && #[trigger] s[k] == (w as u32, x);
                            if k == i {
                                assert(s[k].0 == c);
                            }
                        }
                    }
                    let seg = indices@.subrange(start as int, indices@.len() as int);
                    assert(seg[seg.len() - 1] == v);
                    assert forall|x: u32|
                        #[trigger] seg.contains(x) <==> exists|k: int|
                            0 <= k < i + 1 && #[trigger] s[k] == (c as u32, x) by {
                        if x == v {
                            assert(s[i - 1] == (c as u32, x));
                        }
                    }
                }
            } else {
                indices.push(v);
                proof {
                    assert forall|w: int|
                        0 <= w < indptr@.len() - 1 implies #[trigger] strictly_ascending(
                        indices@.subrange(indptr@[w] as int, indptr@[w + 1] as int),
                    ) by {
                        assert(indices@.subrange(indptr@[w] as int, indptr@[w + 1] as int)
                            =~= old_ind.subrange(indptr@[w] as int, indptr@[w + 1] as int));
                    }
                    assert forall|w: int, x: u32|
                        0 <= w < indptr@.len() - 1 implies (#[trigger] indices@.subrange(
                        indptr@[w] as int,
                        indptr@[w + 1] as int,
                    ).contains(x) <==> exists|k: int|
                        0 <= k < i + 1 && #[trigger] s[k] == (w as u32, x)) by {
                        assert(indices@.subrange(indptr@[w] as int, indptr@[w + 1] as int)
                            =~= old_ind.subrange(indptr@[w] as int, indptr@[w + 1] as int));
                        if exists|k: int| 0 <= k < i + 1 && #[trigger] s[k] == (w as u32, x) {
                            let k = choose|k: int| 0 <= k < i + 1 && #[trigger] s[k] == (w as u32, x);
                            if k == i {
                                assert(s[k].0 == c);
                            }
                        }
                    }
                    let oseg = old_ind.subrange(start as int, old_ind.len() as int);
                    let seg = indices@.subrange(start as int, indices@.len() as int);
                    assert(seg =~= oseg.push(v));
                    if oseg.len() > 0 {
                        assert(oseg[oseg.len() - 1] == old_ind[old_ind.len() - 1]);
                        assert(oseg[oseg.len() - 1] < v);
                    }
                    assert(strictly_ascending(seg));
                    assert forall|x: u32|
                        #[trigger] seg.contains(x) <==> exists|k: int|
                            0 <= k < i + 1 && #[trigger] s[k] == (c as u32, x) by {
                        if x != v {
                            if seg.contains(x) {
                                let j = choose|j: int| 0 <= j < seg.len() && seg[j] == x;
                                assert(oseg[j] == x);
                            }
                            if oseg.contains(x) {
                                let j = choose|j: int| 0 <= j < oseg.len() && oseg[j] == x;
                                assert(seg[j] == x);
                            }
                        } else {
                            assert(seg[seg.len() - 1] == x);
                        }
                    }
                }
            }
            i = i + 1;
        }
        while indptr.len() - 1 < nv
            invariant
                s == sorted@,
                nv <= u32::MAX,
                i == s.len(),
                s.len() > 0 ==> nv > 0,
                1 <= indptr@.len() <= nv + 1 || (nv == 0 && indptr@.len() == 1),
                indptr@[0] == 0,
                forall|a: int, b: int| 0 <= a <= b < indptr@.len() ==> indptr@[a] <= indptr@[b],
                indptr@[indptr@.len() - 1] <= indices@.len(),
                forall|k: int| 0 <= k < indices@.len() ==> indices@[k] < nv,
                forall|w: int|
                    0 <= w < indptr@.len() - 1 ==> #[trigger] strictly_ascending(
                        indices@.subrange(indptr@[w] as int, indptr@[w + 1] as int),
                    ),
                forall|w: int, v: u32|
                    0 <= w < indptr@.len() - 1 ==> (#[trigger] indices@.subrange(
                        indptr@[w] as int,
                        indptr@[w + 1] as int,
                    ).contains(v) <==> exists|k: int| 0 <= k < i && #[trigger] s[k] == (w as u32, v)),
                strictly_ascending(
                    indices@.subrange(indptr@[indptr@.len() - 1] as int, indices@.len() as int),
                ),
                forall|v: u32|
                    #[trigger] indices@.subrange(
                        indptr@[indptr@.len() - 1] as int,
                        indices@.len() as int,
                    ).contains(v) <==> exists|k: int|
                        0 <= k < i && #[trigger] s[k] == ((indptr@.len() - 1) as u32, v),
                forall|k: int| 0 <= k < i ==> (#[trigger] s[k]).0 <= indptr@.len() - 1,
            decreases nv + 1 - indptr@.len(),
        {
            let ghost c = indptr@.len() - 1;
            let ghost old_ptr = indptr@;
            indptr.push(indices.len());
            proof {
                assert forall|w: int|
                    0 <= w < indptr@.len() - 1 implies #[trigger] strictly_ascending(
                    indices@.subrange(indptr@[w] as int, indptr@[w + 1] as int),
                ) by {
                    if w < c {
                        assert(indptr@[w] == old_ptr[w] && indptr@[w + 1] == old_ptr[w + 1]);
                    }
                }
                assert forall|w: int, x: u32|
                    0 <= w < indptr@.len() - 1 implies (#[trigger] indices@.subrange(
                    indptr@[w] as int,
                    indptr@[w + 1] as int,
                ).contains(x) <==> exists|k: int| 0 <= k < i && #[trigger] s[k] == (w as u32, x)) by {
                    if w < c {
                        assert(indptr@[w] == old_ptr[w] && indptr@[w + 1] == old_ptr[w + 1]);
                    }
                }
                assert forall|x: u32|
                    #[trigger] indices@.subrange(
                        indptr@[indptr@.len() - 1] as int,
                        indices@.len() as int,
                    ).contains(x) <==> exists|k: int|
                        0 <= k < i && #[trigger] s[k] == ((indptr@.len() - 1) as u32, x) by {
                    if exists|k: int| 0 <= k < i && #[trigger] s[k] == ((indptr@.len() - 1) as u32, x) {
                        let k = choose|k: int| 0 <= k < i && #[trigger] s[k] == ((indptr@.len() - 1) as u32, x);
                        assert(s[k].0 <= c);
                    }
                }
            }
        }
        let ghost final_ptr = indptr@;
        assert(indptr@.len() == nv + 1);
        // the open row is empty once every row is closed
        assert(indptr@[indptr@.len() - 1] == indices@.len()) by {
            if indices@.len() > indptr@[indptr@.len() - 1] {
                let seg = indices@.subrange(indptr@[indptr@.len() - 1] as int, indices@.len() as int);
                assert(seg.contains(seg[0]));
                let k = choose|k: int| 0 <= k < i && #[trigger] s[k] == ((indptr@.len() - 1) as u32, seg[0]);
                assert(s[k].0 < nv);
            }
        }
        let m = Csr { indptr, indices };
        proof {
            let rows = m@;
            assert forall|u: int| 0 <= u < rows.len() implies #[trigger] strictly_ascending(rows[u]) by {
                assert(rows[u] == m.indices@.subrange(final_ptr[u] as int, final_ptr[u + 1] as int));
            }
            assert forall|u: int, k: int|
                0 <= u < rows.len() && 0 <= k < rows[u].len() implies (#[trigger] rows[u][k]) < rows.len() by {
                assert(rows[u][k] == m.indices@[final_ptr[u] + k]);
            }
            given.to_multiset_ensures();
            s.to_multiset_ensures();
            assert forall|u: int, v: u32|
                0 <= u < rows.len() implies (#[trigger] rows[u].contains(v) <==> given.contains(
                    (u as u32, v),
                )) by {
                assert(rows[u] == m.indices@.subrange(final_ptr[u] as int, final_ptr[u + 1] as int));
                if rows[u].contains(v) {
                    let k = choose|k: int| 0 <= k < i && #[trigger] s[k] == (u as u32, v);
                    assert(s.contains(s[k]));
                    assert(s.to_multiset().count(s[k]) > 0);
                    assert(given.to_multiset().count(s[k]) > 0);
                }
                if given.contains((u as u32, v)) {
                    assert(given.to_multiset().count((u as u32, v)) > 0);
                    assert(s.to_multiset().count((u as u32, v)) > 0);
                    assert(s.contains((u as u32, v)));
                    let k = choose|k: int| 0 <= k < s.len() && s[k] == (u as u32, v);
                    assert(s[k] == (u as u32, v));
                }
            }
        }
        Ok(m)
    }

    /// Number of stored entries, the sum of the row lengths.
    pub fn n(&self) -> (r: usize)
        requires
            self.wf(),
        ensures
            r == total_len(self@),
    {
        proof {
            lemma_prefix_len(self.indptr@, self.indices@, self.indptr@.len() - 1);
        }
        self.indices.len()
    }

    /// The ids of row `u`, in ascending order.
    pub fn row(&self, u: usize) -> (r: &[u32])
        requires
            self.wf(),
            u < self@.len(),
        ensures
            r@ == self@[u as int],
    {
        let lo = self.indptr[u];
        let hi = self.indptr[u + 1];
        &self.indices.as_slice()[lo..hi]
    }

    /// Length of row `u`.
    pub fn row_len(&self, u: usize) -> (r: usize)
        requires
            self.wf(),
            u < self@.len(),
        ensures
            r == self@[u as int].len(),
    {
        self.indptr[u + 1] - self.indptr[u]
    }

    /// Whether row `u` holds `v`, by binary search.
    pub fn has_index(&self, u: usize, v: u32) -> (r: bool)
        requires
            self.wf(),
            u < self@.len(),
        ensures
            r == self@[u as int].contains(v),
    {
        let row = self.row(u);
        proof {
            assert(strictly_ascending(self@[u as int]));
        }
        sorted_contains(row, v)
    }
}

/// Ids below `n` at both ends of every edge.
pub open spec fn ids_below(edges: Seq<(u32, u32)>, n: int) -> bool {
    forall|k: int| 0 <= k < edges.len() ==> (#[trigger] edges[k]).0 < n && edges[k].1 < n
}

/// `n` is one more than the largest id that an edge names, or 0 without edges.
pub open spec fn is_vertex_count(edges: Seq<(u32, u32)>, n: int) -> bool {
    &&& ids_below(edges, n)
    &&& (n == 0 || exists|k: int|
        0 <= k < edges.len() && ((#[trigger] edges[k]).0 == n - 1 || edges[k].1 == n - 1))
}

/// Lexicographic order on pairs, as `Ord` on tuples defines it.
pub open spec fn pair_le(a: (u32, u32), b: (u32, u32)) -> bool {
    a.0 < b.0 || (a.0 == b.0 && a.1 <= b.1)
}

/// Pairs in ascending lexicographic order.
pub open spec fn pairs_sorted(s: Seq<(u32, u32)>) -> bool {
    forall|i: int, j: int| 0 <= i < j < s.len() ==> pair_le(s[i], s[j])
}

/// Relies on `slice::sort_unstable`: the same elements in ascending order,
/// tuples comparing lexicographically.
#[verifier::external_body]
fn sort_pairs(v: &mut Vec<(u32, u32)>)
    ensures
        final(v)@.to_multiset() == old(v)@.to_multiset(),
        pairs_sorted(final(v)@),
{
    v.sort_unstable();
}

/// Sum of the row lengths up to row `k` is the offset of row `k`.
proof fn lemma_prefix_len(indptr: Seq<usize>, indices: Seq<u32>, k: int)
    requires
        offsets_valid(indptr, indices.len() as int),
        0 <= k < indptr.len(),
    ensures
        prefix_len(rows_of(indptr, indices), k) == indptr[k],
    decreases k,
{
    if k > 0 {
        lemma_prefix_len(indptr, indices, k - 1);
        assert(indptr[k - 1] <= indptr[k]);
    }
}

/// Binary search for `x` in a strictly ascending slice.
pub fn sorted_contains(s: &[u32], x: u32) -> (r: bool)
    requires
        strictly_ascending(s@),
    ensures
        r == s@.contains(x),
{
    let mut lo: usize = 0;
    let mut hi: usize = s.len();
    while lo < hi
        invariant
            0 <= lo <= hi <= s@.len(),
            strictly_ascending(s@),
            forall|k: int| 0 <= k < lo ==> s@[k] < x,
            forall|k: int| hi <= k < s@.len() ==> s@[k] > x,
        decreases hi - lo,
    {
        let mid = lo + (hi - lo) / 2;
        if s[mid] == x {
            return true;
        } else if s[mid] < x {
            lo = mid + 1;
        } else {
            hi = mid;
        }
    }
    proof {
        if s@.contains(x) {
            let k = choose|k: int| 0 <= k < s@.len() && s@[k] == x;
            assert(s@[k] == x);
        }
    }
    false
}

} // verus!
