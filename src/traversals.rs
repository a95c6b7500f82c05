//! Level-synchronous breadth-first traversal over a graph view.

use vstd::prelude::*;
use bitvec::order::Lsb0;
use bitvec::vec::BitVec;
use crate::csr::rows_valid;
use crate::graph::{Graph, Vertex};

verus! {

/// Level of a vertex that the traversal did not reach.
pub const UNREACHED: Vertex = 0xffff_ffff;

/// A dense bitset over vertex ids, held in a `bitvec` bit-vector.
#[verifier::external_body]
pub struct VisitedSet {
    bits: BitVec<u64, Lsb0>,
}

/// The bits that a bit-vector holds, in index order.
pub uninterp spec fn bits_of(b: VisitedSet) -> Seq<bool>;

/// Relies on `BitVec::repeat`: `n` bits, all clear. It panics only past its
/// largest encodable length, `usize::MAX >> 3` bits.
#[verifier::external_body]
fn clear_bits(n: usize) -> (r: VisitedSet)
    requires
        n <= usize::MAX / 8,
    ensures
        bits_of(r) == Seq::new(n as nat, |i: int| false),
{
    VisitedSet { bits: BitVec::repeat(false, n) }
}

/// Relies on indexing a `BitVec`: the bit at `i`.
#[verifier::external_body]
fn bit_at(b: &VisitedSet, i: usize) -> (r: bool)
    requires
        i < bits_of(*b).len(),
    ensures
        r == bits_of(*b)[i as int],
{
    b.bits[i]
}

/// Relies on `BitSlice::set`: the bit at `i` becomes `v`, the others stay.
#[verifier::external_body]
fn set_bit(b: &mut VisitedSet, i: usize, v: bool)
    requires
        i < bits_of(*old(b)).len(),
    ensures
        bits_of(*final(b)) == bits_of(*old(b)).update(i as int, v),
{
    b.bits.set(i, v)
}

/// Relies on `slice::sort_unstable`: the same ids in ascending order.
#[verifier::external_body]
fn sort_ids(v: &mut Vec<Vertex>)
    ensures
        final(v)@.to_multiset() == old(v)@.to_multiset(),
{
    v.sort_unstable()
}

/// Number of set bits.
pub open spec fn count_set(s: Seq<bool>) -> int
    decreases s.len(),
{
    if s.len() == 0 {
        0
    } else {
        count_set(s.drop_last()) + if s.last() {
            1int
        } else {
            0int
        }
    }
}

proof fn lemma_count_set_bound(s: Seq<bool>)
    ensures
        0 <= count_set(s) <= s.len(),
    decreases s.len(),
{
    if s.len() > 0 {
        lemma_count_set_bound(s.drop_last());
    }
}

proof fn lemma_count_set_update(s: Seq<bool>, i: int)
    requires
        0 <= i < s.len(),
        !s[i],
    ensures
        count_set(s.update(i, true)) == count_set(s) + 1,
    decreases s.len(),
{
    let t = s.update(i, true);
    if i < s.len() - 1 {
        assert(t.drop_last() =~= s.drop_last().update(i, true));
        lemma_count_set_update(s.drop_last(), i);
    } else {
        assert(t.drop_last() =~= s.drop_last());
    }
}

/// Levels that a breadth-first traversal from `src` assigns: `src` is at 0;
/// each other reached vertex is one past some reached in-neighbour; every
/// out-neighbour of a reached vertex is reached, at most one past it. Each
/// reached vertex is thus at its hop distance from `src`, and a vertex is
/// reached exactly when a path leads to it.
pub open spec fn bfs_levels(adj: Seq<Seq<u32>>, src: int, levels: Seq<u32>) -> bool {
    &&& levels.len() == adj.len()
    &&& levels[src] == 0
    &&& forall|x: int|
        0 <= x < levels.len() && x != src && levels[x] != UNREACHED ==> exists|p: int|
            0 <= p < adj.len() && levels[p] != UNREACHED && #[trigger] adj[p].contains(x as u32)
                && levels[p] + 1 == #[trigger] levels[x]
    &&& forall|p: int, w: u32|
        0 <= p < adj.len() && levels[p] != UNREACHED && #[trigger] adj[p].contains(w) ==> levels[w as int]
            != UNREACHED && levels[w as int] <= levels[p] + 1
}

/// Hop distances from `src`, `UNREACHED` where no path leads.
#[verifier::rlimit(80)]
pub fn bfs<G: Graph>(g: &G, src: Vertex) -> (levels: Vec<Vertex>)
    requires
        g.valid(),
        src < g.out_adj().len(),
        g.out_adj().len() <= usize::MAX / 8,
    ensures
        bfs_levels(g.out_adj(), src as int, levels@),
{
    let ghost adj = g.out_adj();
    proof {
        g.lemma_valid();
    }
    let n = g.nv();
    let mut maxdeg: usize = 0;
    let mut u: Vertex = 0;
    while u < n
        invariant
            g.valid(),
            n == g.out_adj().len(),
            u <= n,
        decreases n - u,
    {
        let d = g.out_degree(u) as usize;
        if d > maxdeg {
            maxdeg = d;
        }
        u = u + 1;
    }
    let nn = n as usize;
    let mut visited = clear_bits(nn);
    let mut levels: Vec<Vertex> = Vec::with_capacity(nn);
    let mut x: usize = 0;
    while x < nn
        invariant
            x <= nn,
            levels@.len() == x,
            forall|k: int| 0 <= k < x ==> levels@[k] == UNREACHED,
        decreases nn - x,
    {
        levels.push(UNREACHED);
        x = x + 1;
    }
    let mut cur_level: Vec<Vertex> = Vec::with_capacity(maxdeg);
    let mut next_level: Vec<Vertex> = Vec::with_capacity(maxdeg);
    let s = src as usize;
    proof {
        lemma_count_set_update(bits_of(visited), s as int);
    }
    set_bit(&mut visited, s, true);
    cur_level.push(src);
    levels.set(s, 0);
    proof {
        assert(count_set(Seq::new(nn as nat, |i: int| false)) == 0) by {
            lemma_count_set_zero(nn as int);
        }
    }
    proof {
        assert forall|x: u32| #[trigger] cur_level@.contains(x) <==> x < n && levels@[x as int] == 0 by {
            if x == src {
                assert(cur_level@[0] == x);
            }
        }
    }
    let mut n_level: u64 = 1;
    while cur_level.len() > 0
        invariant
            g.valid(),
            adj == g.out_adj(),
            rows_valid(adj),
            nn == n == adj.len(),
            s == src,
            src < n,
            levels@.len() == n,
            bits_of(visited).len() == n,
            forall|x: int| 0 <= x < n ==> (bits_of(visited)[x] <==> levels@[x] != UNREACHED),
            1 <= n_level <= count_set(bits_of(visited)) + 1,
            cur_level@.len() > 0 ==> n_level <= count_set(bits_of(visited)),
            forall|x: int| 0 <= x < n && levels@[x] != UNREACHED ==> levels@[x] < n_level,
            levels@[s as int] == 0,
            forall|x: int|
                0 <= x < n && x != src && levels@[x] != UNREACHED ==> exists|p: int|
                    0 <= p < adj.len() && levels@[p] != UNREACHED && #[trigger] adj[p].contains(
                        x as u32,
                    ) && levels@[p] + 1 == #[trigger] levels@[x],
            forall|x: u32| #[trigger] cur_level@.contains(x) <==> x < n && levels@[x as int] != UNREACHED && levels@[x as int] == n_level - 1,
            forall|p: int, w: u32|
                0 <= p < adj.len() && levels@[p] != UNREACHED && levels@[p] < n_level - 1
                    && #[trigger] adj[p].contains(w) ==> levels@[w as int] != UNREACHED
                    && levels@[w as int] <= levels@[p] + 1,
            next_level@.len() == 0,
        decreases n - count_set(bits_of(visited)) + cur_level@.len(),
    {
        let ghost old_levels = levels@;
        let ghost old_count = count_set(bits_of(visited));
        let mut ci: usize = 0;
        while ci < cur_level.len()
            invariant
                g.valid(),
                adj == g.out_adj(),
                rows_valid(adj),
                nn == n == adj.len(),
                s == src,
                src < n,
                levels@.len() == n,
                bits_of(visited).len() == n,
                forall|x: int| 0 <= x < n ==> (bits_of(visited)[x] <==> levels@[x] != UNREACHED),
                1 <= n_level <= old_count <= count_set(bits_of(visited)),
                count_set(bits_of(visited)) == old_count + next_level@.len(),
                forall|x: int| 0 <= x < n && levels@[x] != UNREACHED ==> levels@[x] <= n_level,
                forall|x: int| 0 <= x < n && old_levels[x] != UNREACHED ==> levels@[x] == old_levels[x],
                forall|x: int| 0 <= x < n && old_levels[x] == UNREACHED && levels@[x] != UNREACHED ==> levels@[x] == n_level,
                forall|x: int| 0 <= x < n && old_levels[x] != UNREACHED ==> old_levels[x] < n_level,
                levels@[s as int] == 0,
                forall|x: int|
                    0 <= x < n && x != src && levels@[x] != UNREACHED ==> exists|p: int|
                        0 <= p < adj.len() && levels@[p] != UNREACHED && #[trigger] adj[p].contains(
                            x as u32,
                        ) && levels@[p] + 1 == #[trigger] levels@[x],
                forall|x: u32| #[trigger] cur_level@.contains(x) <==> x < n && old_levels[x as int] != UNREACHED && old_levels[x as int] == n_level - 1,
                forall|x: u32| #[trigger] next_level@.contains(x) <==> x < n && old_levels[x as int] == UNREACHED && levels@[x as int] != UNREACHED,
                0 <= ci <= cur_level@.len(),
                forall|j: int, w: u32|
                    0 <= j < ci && #[trigger] adj[cur_level@[j] as int].contains(w) ==> levels@[w as int] != UNREACHED
                        && levels@[w as int] <= n_level,
            decreases cur_level@.len() - ci,
        {
            let v = cur_level[ci];
            proof {
                assert(cur_level@.contains(v));
            }
            let row = g.out_neighbors(v);
            let mut k: usize = 0;
            while k < row.len()
                invariant
                    g.valid(),
                    adj == g.out_adj(),
                    rows_valid(adj),
                    nn == n == adj.len(),
                    s == src,
                    src < n,
                    v < n,
                    old_levels[v as int] == n_level - 1,
                    row@ == adj[v as int],
                    levels@.len() == n,
                    bits_of(visited).len() == n,
                    forall|x: int| 0 <= x < n ==> (bits_of(visited)[x] <==> levels@[x] != UNREACHED),
                    1 <= n_level <= old_count <= count_set(bits_of(visited)),
                    count_set(bits_of(visited)) == old_count + next_level@.len(),
                    forall|x: int| 0 <= x < n && levels@[x] != UNREACHED ==> levels@[x] <= n_level,
                    forall|x: int| 0 <= x < n && old_levels[x] != UNREACHED ==> levels@[x] == old_levels[x],
                    forall|x: int| 0 <= x < n && old_levels[x] == UNREACHED && levels@[x] != UNREACHED ==> levels@[x] == n_level,
                    forall|x: int| 0 <= x < n && old_levels[x] != UNREACHED ==> old_levels[x] < n_level,
                    levels@[s as int] == 0,
                    forall|x: int|
                        0 <= x < n && x != src && levels@[x] != UNREACHED ==> exists|p: int|
                            0 <= p < adj.len() && levels@[p] != UNREACHED && #[trigger] adj[p].contains(
                                x as u32,
                            ) && levels@[p] + 1 == #[trigger] levels@[x],
                    forall|x: u32| #[trigger] next_level@.contains(x) <==> x < n && old_levels[x as int] == UNREACHED && levels@[x as int] != UNREACHED,
                    0 <= ci < cur_level@.len(),
                    cur_level@[ci as int] == v,
                    forall|x: u32| #[trigger] cur_level@.contains(x) <==> x < n && old_levels[x as int] != UNREACHED && old_levels[x as int] == n_level - 1,
                    forall|j: int, w: u32|
                        0 <= j < ci && #[trigger] adj[cur_level@[j] as int].contains(w) ==> levels@[w as int] != UNREACHED
                            && levels@[w as int] <= n_level,
                    0 <= k <= row@.len(),
                    forall|t: int| 0 <= t < k ==> levels@[row@[t] as int] != UNREACHED && levels@[row@[t] as int] <= n_level,
                decreases row@.len() - k,
            {
                let i = row[k];
                proof {
                    assert(adj[v as int][k as int] < n);
                }
                let ui = i as usize;
                if !bit_at(&visited, ui) {
                    proof {
                        lemma_count_set_update(bits_of(visited), ui as int);
                        lemma_count_set_bound(bits_of(visited).update(ui as int, true));
                        assert(!next_level@.contains(i));
                    }
                    let ghost old_next = next_level@;
                    let ghost before = levels@;
                    next_level.push(i);
                    set_bit(&mut visited, ui, true);
                    levels.set(ui, n_level as u32);
                    proof {
                        assert(adj[v as int].contains(i)) by {
                            assert(row@[k as int] == i);
                        }
                        assert forall|x: int|
                            0 <= x < n && x != src && levels@[x] != UNREACHED implies exists|p: int|
                                0 <= p < adj.len() && levels@[p] != UNREACHED && #[trigger] adj[p].contains(
                                    x as u32,
                                ) && levels@[p] + 1 == #[trigger] levels@[x] by {
                            if x == ui {
                                assert(levels@[v as int] == old_levels[v as int]);
                                assert(adj[v as int].contains(x as u32));
                            } else {
                                let p = choose|p: int|
                                    0 <= p < adj.len() && before[p] != UNREACHED && #[trigger] adj[p].contains(
                                        x as u32,
                                    ) && before[p] + 1 == #[trigger] before[x];
                                assert(levels@[p] == before[p]);
                            }
                        }
                        assert forall|j: int, w: u32|
                            0 <= j < ci && #[trigger] adj[cur_level@[j] as int].contains(w) implies levels@[w as int] != UNREACHED
                                && levels@[w as int] <= n_level by {
                            assert(cur_level@.contains(cur_level@[j]));
                            let t = choose|t: int| 0 <= t < adj[cur_level@[j] as int].len() && adj[cur_level@[j] as int][t] == w;
                            assert(adj[cur_level@[j] as int][t] < adj.len());
                            if w as int != ui as int {
                                assert(levels@[w as int] == before[w as int]);
                            }
                        }
                        assert forall|t: int| 0 <= t < k + 1 implies levels@[row@[t] as int] != UNREACHED && levels@[row@[t] as int] <= n_level by {
                            if row@[t] as int != ui as int {
                                assert(levels@[row@[t] as int] == before[row@[t] as int]);
                            }
                        }
                        assert forall|x: u32| #[trigger] next_level@.contains(x) <==> x < n && old_levels[x as int] == UNREACHED && levels@[x as int] != UNREACHED by {
                            if x == i {
                                assert(next_level@[next_level@.len() - 1] == x);
                            } else if old_next.contains(x) {
                                let t = choose|t: int| 0 <= t < old_next.len() && old_next[t] == x;
                                assert(next_level@[t] == x);
                            } else if next_level@.contains(x) {
                                let t = choose|t: int| 0 <= t < next_level@.len() && next_level@[t] == x;
                                assert(t < old_next.len());
                                assert(old_next[t] == x);
                            }
                        }
                    }
                }
                k = k + 1;
            }
            proof {
                assert forall|j: int, w: u32|
                    0 <= j < ci + 1 && #[trigger] adj[cur_level@[j] as int].contains(w) implies levels@[w as int] != UNREACHED
                        && levels@[w as int] <= n_level by {
                    if j == ci {
                        let t = choose|t: int| 0 <= t < row@.len() && row@[t] == w;
                        assert(levels@[row@[t] as int] != UNREACHED);
                    }
                }
            }
            ci = ci + 1;
        }
        let ghost mid_levels = levels@;
        proof {
            assert forall|p: int, w: u32|
                0 <= p < adj.len() && levels@[p] != UNREACHED && levels@[p] < n_level
                    && #[trigger] adj[p].contains(w) implies levels@[w as int] != UNREACHED
                    && levels@[w as int] <= levels@[p] + 1 by {
                assert(old_levels[p] != UNREACHED);
                if old_levels[p] == n_level - 1 {
                    assert(cur_level@.contains(p as u32));
                    let j = choose|j: int| 0 <= j < cur_level@.len() && cur_level@[j] == p as u32;
                    assert(adj[cur_level@[j] as int].contains(w));
                } else {
                    assert(w < n) by {
                        let t = choose|t: int| 0 <= t < adj[p].len() && adj[p][t] == w;
                        assert(adj[p][t] < adj.len());
                    }
                }
            }
        }
        proof {
            lemma_count_set_bound(bits_of(visited));
        }
        let ghost nxt = next_level@;
        n_level = n_level + 1;
        cur_level.clear();
        std::mem::swap(&mut cur_level, &mut next_level);
        let ghost unsorted = cur_level@;
        sort_ids(&mut cur_level);
        proof {
            unsorted.to_multiset_ensures();
            cur_level@.to_multiset_ensures();
            assert forall|x: u32| #[trigger] cur_level@.contains(x) <==> x < n && levels@[x as int] != UNREACHED && levels@[x as int] == n_level - 1 by {
                assert(unsorted == nxt);
                if x < n && old_levels[x as int] != UNREACHED {
                    assert(levels@[x as int] == old_levels[x as int]);
                    assert(old_levels[x as int] < n_level - 1);
                }
                assert(nxt.contains(x) <==> x < n && old_levels[x as int] == UNREACHED
                    && levels@[x as int] != UNREACHED);
                if x < n && old_levels[x as int] == UNREACHED && levels@[x as int] != UNREACHED {
                    assert(levels@[x as int] == n_level - 1);
                }
                assert(nxt.contains(x) <==> x < n && levels@[x as int] != UNREACHED && levels@[x as int] == n_level - 1);
                assert(cur_level@.contains(x) <==> nxt.contains(x));
                assert(cur_level@.contains(x) <==> cur_level@.to_multiset().count(x) > 0);
                assert(unsorted.contains(x) <==> unsorted.to_multiset().count(x) > 0);
            }
            if cur_level@.len() > 0 {
                assert(cur_level@.to_multiset().len() == unsorted.to_multiset().len());
                lemma_count_set_bound(bits_of(visited));
            }
        }
    }
    proof {
        assert forall|p: int, w: u32|
            0 <= p < adj.len() && levels@[p] != UNREACHED && #[trigger] adj[p].contains(w) implies levels@[w as int]
                != UNREACHED && levels@[w as int] <= levels@[p] + 1 by {
            if levels@[p] == n_level - 1 {
                assert(cur_level@.contains(p as u32));
                assert(false);
            }
        }
    }
    levels
}

proof fn lemma_count_set_zero(n: int)
    requires
        n >= 0,
    ensures
        count_set(Seq::new(n as nat, |i: int| false)) == 0,
    decreases n,
{
    if n > 0 {
        assert(Seq::new(n as nat, |i: int| false).drop_last() =~= Seq::new((n - 1) as nat, |i: int| false));
        lemma_count_set_zero(n - 1);
    }
}

/// A walk: a non-empty sequence of vertices, each joined to the next by an
/// arc.
pub open spec fn is_walk(adj: Seq<Seq<u32>>, w: Seq<u32>) -> bool {
    &&& w.len() >= 1
    &&& forall|i: int| 0 <= i < w.len() ==> (#[trigger] w[i]) < adj.len()
    &&& forall|i: int| 0 <= i < w.len() - 1 ==> #[trigger] adj[w[i] as int].contains(w[i + 1])
}

/// A walk of `k` arcs from the source ends at a vertex reached at level at
/// most `k`: no vertex is reached later than its distance.
pub proof fn lemma_levels_at_most_walk(adj: Seq<Seq<u32>>, src: int, levels: Seq<u32>, w: Seq<u32>)
    requires
        bfs_levels(adj, src, levels),
        is_walk(adj, w),
        w[0] == src,
    ensures
        levels[w.last() as int] != UNREACHED,
        levels[w.last() as int] <= w.len() - 1,
    decreases w.len(),
{
    if w.len() > 1 {
        let v = w.drop_last();
        assert(is_walk(adj, v)) by {
            assert forall|i: int| 0 <= i < v.len() - 1 implies #[trigger] adj[v[i] as int].contains(
                v[i + 1],
            ) by {
                assert(adj[w[i] as int].contains(w[i + 1]));
            }
        }
        lemma_levels_at_most_walk(adj, src, levels, v);
        let i = w.len() - 2;
        assert(adj[w[i] as int].contains(w[i + 1]));
        assert(w[i] < adj.len());
        assert(v.last() == w[i]);
    }
}

/// Each reached vertex ends a walk from the source with as many arcs as its
/// level: no vertex is reached earlier than its distance.
pub proof fn lemma_reached_has_walk(adj: Seq<Seq<u32>>, src: int, levels: Seq<u32>, u: int) -> (w:
    Seq<u32>)
    requires
        bfs_levels(adj, src, levels),
        adj.len() <= u32::MAX,
        0 <= src < adj.len(),
        0 <= u < adj.len(),
        levels[u] != UNREACHED,
    ensures
        is_walk(adj, w),
        w[0] == src,
        w.last() == u,
        w.len() == levels[u] + 1,
    decreases levels[u],
{
    if u == src {
        let w = seq![src as u32];
        assert(w.last() == u);
        w
    } else {
        let p = choose|p: int|
            0 <= p < adj.len() && levels[p] != UNREACHED && #[trigger] adj[p].contains(u as u32)
                && levels[p] + 1 == #[trigger] levels[u];
        let v = lemma_reached_has_walk(adj, src, levels, p);
        let w = v.push(u as u32);
        assert forall|i: int| 0 <= i < w.len() - 1 implies #[trigger] adj[w[i] as int].contains(
            w[i + 1],
        ) by {
            if i < w.len() - 2 {
                assert(adj[v[i] as int].contains(v[i + 1]));
            }
        }
        assert forall|i: int| 0 <= i < w.len() implies (#[trigger] w[i]) < adj.len() by {
            if i < w.len() - 1 {
                assert(v[i] < adj.len());
            }
        }
        w
    }
}

} // verus!
