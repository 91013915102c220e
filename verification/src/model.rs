use vstd::prelude::*;

verus! {

/// Sum of the weights `freq[a..=b]`; an empty interval sums to zero.
pub open spec fn interval_sum(freq: Seq<int>, a: int, b: int) -> int
    decreases b - a + 1,
{
    if a > b {
        0
    } else {
        interval_sum(freq, a, b - 1) + freq[b]
    }
}

/// Number of keys in the interval `[a, b]`, clamped at zero; the measure
/// that the cost recursions shrink.
pub open spec fn seg_len(a: int, b: int) -> int {
    if b + 1 >= a {
        b + 1 - a
    } else {
        0
    }
}

/// The smaller of two costs.
pub open spec fn min2(x: int, y: int) -> int {
    if x <= y {
        x
    } else {
        y
    }
}

/// Minimum total access cost of a tree over the keys of the interval
/// `[a, b]`: zero for an empty interval, the key's own weight for a
/// singleton, and otherwise the cheapest two-point split.
pub open spec fn best_cost(freq: Seq<int>, a: int, b: int) -> int
    decreases seg_len(a, b), 2int, 0int, 0int,
{
    if a > b {
        0
    } else if a == b {
        freq[a]
    } else {
        scan_best(freq, a, b, b, b)
    }
}

/// Cost of the interval `[n, m]` when its node keeps the keys `i` and `j`:
/// every key of the interval pays one visit to the node, and the gaps
/// strictly left of `i`, strictly between `i` and `j`, and strictly right
/// of `j` are served by optimal subtrees. Zero outside the meaningful
/// range of arguments.
pub open spec fn split_cost(freq: Seq<int>, n: int, m: int, i: int, j: int) -> int
    decreases seg_len(n, m), 0int, 0int, 0int,
{
    if n < m && n <= i && i <= j && j <= m {
        interval_sum(freq, n, m) + best_cost(freq, n, i - 1) + best_cost(freq, i + 1, j - 1)
            + best_cost(freq, j + 1, m)
    } else {
        0
    }
}

/// Minimum split cost over an enumerated prefix of candidates: all pairs
/// `(i2, j2)` with `n <= i2 <= j2 <= m` that come no later than `(i, j)`
/// in ascending `(j, i)` order, the order the solver scans.
pub open spec fn scan_best(freq: Seq<int>, n: int, m: int, j: int, i: int) -> int
    decreases seg_len(n, m), 1int, j - n, i - n,
{
    if n < i {
        min2(scan_best(freq, n, m, j, i - 1), split_cost(freq, n, m, i, j))
    } else if n < j {
        min2(scan_best(freq, n, m, j - 1, j - 1), split_cost(freq, n, m, n, j))
    } else {
        split_cost(freq, n, m, n, n)
    }
}

/// The split pair recorded for the enumerated prefix ending at `(i, j)`:
/// the first candidate, in ascending `(j, i)` order, whose cost equals
/// the prefix minimum (a later candidate displaces the running best only
/// when strictly cheaper).
pub open spec fn scan_pick(freq: Seq<int>, n: int, m: int, j: int, i: int) -> (int, int)
    decreases seg_len(n, m), 3int, j - n, i - n,
{
    if n < i {
        if scan_best(freq, n, m, j, i - 1) <= split_cost(freq, n, m, i, j) {
            scan_pick(freq, n, m, j, i - 1)
        } else {
            (i, j)
        }
    } else if n < j {
        if scan_best(freq, n, m, j - 1, j - 1) <= split_cost(freq, n, m, n, j) {
            scan_pick(freq, n, m, j - 1, j - 1)
        } else {
            (n, j)
        }
    } else {
        (n, n)
    }
}

/// The split pair the solver records for the interval `[n, m]`.
pub open spec fn best_split(freq: Seq<int>, n: int, m: int) -> (int, int) {
    if n == m {
        (n, n)
    } else {
        scan_pick(freq, n, m, m, m)
    }
}

/// Every weight is non-negative.
pub open spec fn all_nonneg(freq: Seq<int>) -> bool {
    forall|k: int| 0 <= k < freq.len() ==> freq[k] >= 0
}

/// Every split cost the solver ever compares fits in a `u64`.
pub open spec fn costs_fit(freq: Seq<int>) -> bool {
    forall|n: int, m: int, i: int, j: int|
        0 <= n <= i <= j <= m < freq.len() && n < m ==> #[trigger] split_cost(
            freq,
            n,
            m,
            i,
            j,
        ) <= u64::MAX
}

/// The split costs already enumerated for the cell `[n, m]` — pairs up to
/// `(i, j)` in ascending `(j, i)` order — all fit in a `u64`.
pub open spec fn prefix_fits(freq: Seq<int>, n: int, m: int, j: int, i: int) -> bool {
    forall|i2: int, j2: int|
        n <= i2 <= j2 <= m && (j2 < j || (j2 == j && i2 <= i)) ==> #[trigger] split_cost(
            freq,
            n,
            m,
            i2,
            j2,
        ) <= u64::MAX
}

/// An interval of non-negative weights has a non-negative sum.
pub proof fn lemma_sum_nonneg(freq: Seq<int>, a: int, b: int)
    requires
        all_nonneg(freq),
        0 <= a,
        b < freq.len(),
    ensures
        interval_sum(freq, a, b) >= 0,
    decreases b - a + 1,
{
    if a <= b {
        lemma_sum_nonneg(freq, a, b - 1);
    }
}

/// Splitting an interval at `k` splits its sum.
pub proof fn lemma_sum_split(freq: Seq<int>, a: int, k: int, b: int)
    requires
        a <= k,
        k <= b + 1,
    ensures
        interval_sum(freq, a, b) == interval_sum(freq, a, k - 1) + interval_sum(freq, k, b),
    decreases b - k + 1,
{
    if k <= b {
        lemma_sum_split(freq, a, k, b - 1);
    }
}

/// A sub-interval of non-negative weights never sums to more than an
/// enclosing interval.
pub proof fn lemma_sum_within(freq: Seq<int>, a: int, b: int, a2: int, b2: int)
    requires
        all_nonneg(freq),
        0 <= a2 <= a,
        b <= b2,
        b2 < freq.len(),
    ensures
        interval_sum(freq, a, b) <= interval_sum(freq, a2, b2),
{
    if a > b {
        lemma_sum_nonneg(freq, a2, b2);
    } else {
        lemma_sum_split(freq, a2, a, b2);
        lemma_sum_split(freq, a, b + 1, b2);
        lemma_sum_nonneg(freq, a2, a - 1);
        lemma_sum_nonneg(freq, b + 1, b2);
    }
}

/// The running minimum of the scan bounds every candidate enumerated so
/// far, and the recorded pair is an enumerated candidate attaining it.
pub proof fn lemma_scan_props(freq: Seq<int>, n: int, m: int, j: int, i: int)
    requires
        n < m,
        n <= i <= j <= m,
    ensures
        forall|i2: int, j2: int|
            n <= i2 <= j2 <= m && (j2 < j || (j2 == j && i2 <= i)) ==> scan_best(freq, n, m, j, i)
                <= #[trigger] split_cost(freq, n, m, i2, j2),
        n <= scan_pick(freq, n, m, j, i).0,
        scan_pick(freq, n, m, j, i).0 <= scan_pick(freq, n, m, j, i).1,
        scan_pick(freq, n, m, j, i).1 <= j,
        scan_pick(freq, n, m, j, i).1 == j ==> scan_pick(freq, n, m, j, i).0 <= i,
        split_cost(freq, n, m, scan_pick(freq, n, m, j, i).0, scan_pick(freq, n, m, j, i).1)
            == scan_best(freq, n, m, j, i),
    decreases j - n, i - n,
{
    if n < i {
        lemma_scan_props(freq, n, m, j, i - 1);
    } else if n < j {
        lemma_scan_props(freq, n, m, j - 1, j - 1);
    }
}

/// For a multi-key interval the recorded split pair lies inside the
/// interval and attains the optimal cost, which no split beats.
pub proof fn lemma_best_split(freq: Seq<int>, n: int, m: int)
    requires
        n < m,
    ensures
        n <= best_split(freq, n, m).0,
        best_split(freq, n, m).0 <= best_split(freq, n, m).1,
        best_split(freq, n, m).1 <= m,
        split_cost(freq, n, m, best_split(freq, n, m).0, best_split(freq, n, m).1) == best_cost(
            freq,
            n,
            m,
        ),
        forall|i: int, j: int|
            n <= i <= j <= m ==> best_cost(freq, n, m) <= #[trigger] split_cost(freq, n, m, i, j),
{
    lemma_scan_props(freq, n, m, m, m);
}

} // verus!
