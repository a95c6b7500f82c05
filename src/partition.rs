//! Splitting a sequence of work weights into contiguous, balanced ranges.

use vstd::prelude::*;
use std::ops::Range;

verus! {

/// Sum of the first `k` weights.
pub open spec fn weight_prefix(w: Seq<usize>, k: int) -> int
    decreases k,
{
    if k <= 0 {
        0
    } else {
        weight_prefix(w, k - 1) + w[k - 1]
    }
}

/// The greedy walk over the first `i` weights at threshold `t`: the running
/// sum of the open range, and how many times a new range was opened because
/// the running sum would exceed `t`.
pub open spec fn greedy(w: Seq<usize>, t: int, i: int) -> (int, int)
    decreases i,
{
    if i <= 0 {
        (0, 0)
    } else {
        let (s, k) = greedy(w, t, i - 1);
        if s + w[i - 1] > t {
            (w[i - 1] as int, k + 1)
        } else {
            (s + w[i - 1], k)
        }
    }
}

/// The running sum of the greedy walk never exceeds the prefix sum.
proof fn lemma_greedy_sum(w: Seq<usize>, t: int, i: int)
    requires
        0 <= i <= w.len(),
    ensures
        0 <= greedy(w, t, i).0 <= weight_prefix(w, i),
        0 <= greedy(w, t, i).1 <= i,
    decreases i,
{
    if i > 0 {
        lemma_greedy_sum(w, t, i - 1);
    }
}

/// At a threshold no smaller than the running prefix sum, the walk never
/// opens a new range.
proof fn lemma_greedy_total(w: Seq<usize>, t: int, i: int)
    requires
        0 <= i <= w.len(),
        weight_prefix(w, i) <= t,
    ensures
        greedy(w, t, i) == (weight_prefix(w, i), 0int),
    decreases i,
{
    if i > 0 {
        lemma_prefix_mono(w, i - 1, i);
        lemma_greedy_total(w, t, i - 1);
    }
}

/// Prefix sums grow with the prefix.
pub proof fn lemma_prefix_mono(w: Seq<usize>, a: int, b: int)
    requires
        0 <= a <= b <= w.len(),
    ensures
        weight_prefix(w, a) <= weight_prefix(w, b),
    decreases b - a,
{
    if a < b {
        lemma_prefix_mono(w, a, b - 1);
    }
}


/// The largest of the first `k` weights, 0 for none.
pub open spec fn max_weight(w: Seq<usize>, k: int) -> int
    decreases k,
{
    if k <= 0 {
        0
    } else if w[k - 1] > max_weight(w, k - 1) {
        w[k - 1] as int
    } else {
        max_weight(w, k - 1)
    }
}

/// The balance bound: the larger of the heaviest weight and the total
/// divided by the partition count, rounded up.
pub open spec fn balance_bound(w: Seq<usize>, n_partitions: int) -> int {
    let total = weight_prefix(w, w.len() as int);
    let avg = (total + n_partitions - 1) / n_partitions;
    if max_weight(w, w.len() as int) > avg {
        max_weight(w, w.len() as int)
    } else {
        avg
    }
}

/// Sum of the weights in a range.
pub open spec fn range_weight(w: Seq<usize>, r: Range<usize>) -> int {
    weight_prefix(w, r.end as int) - weight_prefix(w, r.start as int)
}

proof fn lemma_max_weight(w: Seq<usize>, k: int, j: int)
    requires
        0 <= j < k <= w.len(),
    ensures
        w[j] <= max_weight(w, k),
    decreases k,
{
    if j < k - 1 {
        lemma_max_weight(w, k - 1, j);
    }
}

proof fn lemma_max_weight_nonneg(w: Seq<usize>, k: int)
    ensures
        max_weight(w, k) >= 0,
    decreases k,
{
    if k > 0 {
        lemma_max_weight_nonneg(w, k - 1);
    }
}

/// At a threshold of twice `l`, with `l` at least every weight, each range
/// that the walk closes holds more than `l`.
proof fn lemma_greedy_closed(w: Seq<usize>, t: int, l: int, i: int)
    requires
        0 <= i <= w.len(),
        l >= max_weight(w, w.len() as int),
        t >= 2 * l,
    ensures
        weight_prefix(w, i) - greedy(w, t, i).0 >= greedy(w, t, i).1 * l,
        greedy(w, t, i).1 >= 1 ==> weight_prefix(w, i) - greedy(w, t, i).0 > greedy(w, t, i).1 * l,
    decreases i,
{
    if i > 0 {
        lemma_greedy_closed(w, t, l, i - 1);
        lemma_max_weight(w, w.len() as int, i - 1);
        let (s, k) = greedy(w, t, i - 1);
        let c = weight_prefix(w, i - 1) - s;
        assert((k + 1) * l == k * l + l) by (nonlinear_arith);
        if s + w[i - 1] > t {
            assert(greedy(w, t, i) == (w[i - 1] as int, k + 1));
            assert(weight_prefix(w, i) - w[i - 1] == c + s);
            assert(s > l);
        } else {
            assert(greedy(w, t, i) == (s + w[i - 1], k));
        }
    } else {
        assert(greedy(w, t, 0) == (0int, 0int));
        assert(0 * l == 0) by (nonlinear_arith);
    }
}

/// Every threshold of at least twice the balance bound needs no more than
/// `n_partitions` ranges.
proof fn lemma_feasible_at_twice_bound(w: Seq<usize>, n_partitions: int, t: int)
    requires
        n_partitions > 0,
        w.len() > 0,
        t >= 2 * balance_bound(w, n_partitions),
    ensures
        greedy(w, t, w.len() as int).1 < n_partitions,
{
    let n = w.len() as int;
    let l = balance_bound(w, n_partitions);
    let total = weight_prefix(w, n);
    lemma_greedy_closed(w, t, l, n);
    lemma_greedy_sum(w, t, n);
    let k = greedy(w, t, n).1;
    let avg = (total + n_partitions - 1) / n_partitions;
    assert(avg * n_partitions >= total) by (nonlinear_arith)
        requires
            avg == (total + n_partitions - 1) / n_partitions,
            n_partitions > 0,
    ;
    assert(l * n_partitions >= avg * n_partitions) by (nonlinear_arith)
        requires
            l >= avg,
            n_partitions > 0,
    ;
    if k >= n_partitions {
        lemma_max_weight_nonneg(w, n);
        assert(k * l >= n_partitions * l) by (nonlinear_arith)
            requires
                k >= n_partitions,
                l >= 0,
        ;
    }
}

/// Whether the greedy walk at threshold `t` needs at most `n_partitions`
/// ranges.
fn greedy_fits(weights: &Vec<usize>, n_partitions: usize, t: usize) -> (r: bool)
    requires
        n_partitions > 0,
        weight_prefix(weights@, weights@.len() as int) <= usize::MAX,
    ensures
        r == (greedy(weights@, t as int, weights@.len() as int).1 < n_partitions),
{
    let ghost w = weights@;
    let mut sum_part: usize = 0;
    let mut remain_part: usize = n_partitions;
    let mut i: usize = 0;
    while i < weights.len()
        invariant
            w == weights@,
            0 <= i <= w.len(),
            n_partitions > 0,
            weight_prefix(w, w.len() as int) <= usize::MAX,
            sum_part == greedy(w, t as int, i as int).0,
            remain_part == n_partitions - greedy(w, t as int, i as int).1,
            remain_part > 0,
        decreases w.len() - i,
    {
        proof {
            lemma_greedy_sum(w, t as int, i as int);
            lemma_prefix_mono(w, i + 1, w.len() as int);
        }
        let wt = weights[i];
        sum_part = sum_part + wt;
        if sum_part > t {
            sum_part = wt;
            remain_part = remain_part - 1;
            if remain_part == 0 {
                proof {
                    lemma_greedy_count_mono(w, t as int, i + 1, w.len() as int);
                }
                return false;
            }
        }
        i = i + 1;
    }
    true
}

/// The number of ranges the walk opens only grows.
proof fn lemma_greedy_count_mono(w: Seq<usize>, t: int, a: int, b: int)
    requires
        0 <= a <= b <= w.len(),
    ensures
        greedy(w, t, a).1 <= greedy(w, t, b).1,
    decreases b - a,
{
    if a < b {
        lemma_greedy_count_mono(w, t, a, b - 1);
    }
}

/// Ranges that are contiguous, in order, and cover `0 .. n`.
pub open spec fn tiles(r: Seq<Range<usize>>, n: int) -> bool {
    &&& r.len() > 0
    &&& r[0].start == 0
    &&& r[r.len() - 1].end == n
    &&& forall|k: int| 0 <= k < r.len() ==> (#[trigger] r[k]).start <= r[k].end
    &&& forall|k: int| 0 <= k < r.len() - 1 ==> (#[trigger] r[k]).end == r[k + 1].start
}

/// Splits `0 .. weights.len()` into at most `n_partitions` contiguous ranges
/// that keep the largest range sum low: a binary search finds the smallest
/// threshold at which the greedy walk needs no more ranges than that, and a
/// last walk at that threshold emits the ranges. Every range but the first
/// is non-empty; the first is empty only when the first weight alone exceeds
/// the threshold. No ranges for no weights or no partitions.
pub fn optimal_contiguous_partition(weights: Vec<usize>, n_partitions: usize) -> (r: Vec<Range<usize>>)
    requires
        weight_prefix(weights@, weights@.len() as int) <= usize::MAX,
    ensures
        weights@.len() == 0 || n_partitions == 0 ==> r@.len() == 0,
        weights@.len() > 0 && n_partitions > 0 ==> {
            &&& tiles(r@, weights@.len() as int)
            &&& r@.len() <= n_partitions
            &&& forall|k: int| 1 <= k < r@.len() ==> (#[trigger] r@[k]).start < r@[k].end
            &&& forall|k: int|
                0 <= k < r@.len() ==> range_weight(weights@, #[trigger] r@[k]) <= 2 * balance_bound(
                    weights@,
                    n_partitions as int,
                )
        },
{
    let ghost w = weights@;
    let n_items = weights.len();
    if n_items == 0 || n_partitions == 0 {
        return Vec::new();
    }
    let mut total: usize = 0;
    let mut i: usize = 0;
    while i < n_items
        invariant
            w == weights@,
            n_items == w.len(),
            0 <= i <= n_items,
            weight_prefix(w, n_items as int) <= usize::MAX,
            total == weight_prefix(w, i as int),
        decreases n_items - i,
    {
        proof {
            lemma_prefix_mono(w, i + 1, n_items as int);
        }
        total = total + weights[i];
        i = i + 1;
    }
    let mut up_bound: usize = total;
    let mut low_bound: usize = if total == 0 {
        0
    } else {
        (total - 1) / n_partitions
    };
    let ghost first_low = low_bound;
    proof {
        let p = n_partitions as int;
        let t = total as int;
        if t > 0 {
            assert((t - 1) / p + 1 == (t + p - 1) / p) by (nonlinear_arith)
                requires
                    p > 0,
                    t > 0,
            ;
        }
        lemma_max_weight_nonneg(w, n_items as int);
    }
    proof {
        lemma_greedy_total(w, total as int, n_items as int);
    }
    while up_bound - low_bound > 1
        invariant
            w == weights@,
            n_items == w.len(),
            n_partitions > 0,
            weight_prefix(w, n_items as int) <= usize::MAX,
            total == weight_prefix(w, n_items as int),
            low_bound <= up_bound,
            up_bound <= total,
            greedy(w, up_bound as int, n_items as int).1 < n_partitions,
            low_bound == first_low || greedy(w, low_bound as int, n_items as int).1 >= n_partitions,
            first_low + 1 <= balance_bound(w, n_partitions as int) || total == 0,
            total == 0 ==> up_bound == 0,
        decreases up_bound - low_bound,
    {
        let search_for = low_bound + (up_bound - low_bound) / 2;
        if greedy_fits(&weights, n_partitions, search_for) {
            up_bound = search_for;
        } else {
            low_bound = search_for;
        }
    }
    let best_balance = up_bound;
    let ghost bound = balance_bound(w, n_partitions as int);
    let ghost maxw = max_weight(w, n_items as int);
    proof {
        if low_bound != first_low {
            if low_bound >= 2 * bound {
                lemma_feasible_at_twice_bound(w, n_partitions as int, low_bound as int);
            }
        }
        lemma_max_weight_nonneg(w, n_items as int);
        assert(best_balance <= 2 * bound);
        assert(maxw <= bound);
    }
    let mut partitions: Vec<Range<usize>> = Vec::with_capacity(n_partitions);
    let mut sum_part: usize = 0;
    let mut left: usize = 0;
    let mut i: usize = 0;
    while i < n_items
        invariant
            w == weights@,
            n_items == w.len(),
            0 <= i <= n_items,
            weight_prefix(w, n_items as int) <= usize::MAX,
            sum_part == greedy(w, best_balance as int, i as int).0,
            partitions@.len() == greedy(w, best_balance as int, i as int).1,
            left <= i,
            best_balance <= 2 * bound,
            maxw <= bound,
            maxw == max_weight(w, n_items as int),
            sum_part == weight_prefix(w, i as int) - weight_prefix(w, left as int),
            sum_part <= 2 * bound,
            forall|k: int|
                0 <= k < partitions@.len() ==> range_weight(w, #[trigger] partitions@[k]) <= 2 * bound,
            partitions@.len() == 0 ==> left == 0,
            partitions@.len() > 0 ==> {
                &&& partitions@[0].start == 0
                &&& partitions@[partitions@.len() - 1].end == left
                &&& forall|k: int|
                    0 <= k < partitions@.len() ==> (#[trigger] partitions@[k]).start
                        <= partitions@[k].end
                &&& forall|k: int|
                    0 <= k < partitions@.len() - 1 ==> (#[trigger] partitions@[k]).end
                        == partitions@[k + 1].start
                &&& forall|k: int|
                    1 <= k < partitions@.len() ==> (#[trigger] partitions@[k]).start
                        < partitions@[k].end
                &&& left < i
            },
        decreases n_items - i,
    {
        proof {
            lemma_greedy_sum(w, best_balance as int, i as int);
            lemma_prefix_mono(w, i + 1, n_items as int);
        }
        let wt = weights[i];
        proof {
            lemma_max_weight(w, n_items as int, i as int);
        }
        let ghost old_parts = partitions@;
        sum_part = sum_part + wt;
        if sum_part > best_balance {
            partitions.push(left..i);
            proof {
                assert forall|k: int|
                    0 <= k < partitions@.len() implies range_weight(w, #[trigger] partitions@[k]) <= 2
                    * bound by {
                    if k < old_parts.len() {
                        assert(partitions@[k] == old_parts[k]);
                    }
                }
            }
            sum_part = wt;
            left = i;
        }
        i = i + 1;
    }
    let ghost old_parts = partitions@;
    partitions.push(left..n_items);
    proof {
        assert forall|k: int|
            0 <= k < partitions@.len() implies range_weight(w, #[trigger] partitions@[k]) <= 2 * bound by {
            if k < old_parts.len() {
                assert(partitions@[k] == old_parts[k]);
            }
        }
    }
    partitions
}

} // verus!
