use vstd::prelude::*;

use crate::model::all_nonneg;
use crate::model::best_cost;
use crate::model::best_split;
use crate::model::interval_sum;
use crate::model::lemma_best_split;
use crate::model::lemma_sum_nonneg;
use crate::model::scan_best;
use crate::model::seg_len;
use crate::model::split_cost;

verus! {

/// A sequence with a single key costs exactly that key's weight.
pub proof fn lemma_single_key(freq: Seq<int>)
    requires
        freq.len() == 1,
    ensures
        best_cost(freq, 0, 0) == freq[0],
{
}

/// Weight sums never decrease when no weight decreases.
pub proof fn lemma_sum_mono(f1: Seq<int>, f2: Seq<int>, a: int, b: int)
    requires
        f1.len() == f2.len(),
        forall|k: int| 0 <= k < f1.len() ==> f1[k] <= f2[k],
        0 <= a,
        b < f1.len(),
    ensures
        interval_sum(f1, a, b) <= interval_sum(f2, a, b),
    decreases b - a + 1,
{
    if a <= b {
        lemma_sum_mono(f1, f2, a, b - 1);
    }
}

/// The optimal cost of any interval never decreases when no weight
/// decreases: the general form behind raising a single weight.
pub proof fn lemma_cost_mono(f1: Seq<int>, f2: Seq<int>, a: int, b: int)
    requires
        f1.len() == f2.len(),
        forall|k: int| 0 <= k < f1.len() ==> f1[k] <= f2[k],
        0 <= a,
        b < f1.len(),
    ensures
        best_cost(f1, a, b) <= best_cost(f2, a, b),
    decreases seg_len(a, b), 2int, 0int, 0int,
{
    if a < b {
        lemma_scan_mono(f1, f2, a, b, b, b);
    }
}

proof fn lemma_scan_mono(f1: Seq<int>, f2: Seq<int>, n: int, m: int, j: int, i: int)
    requires
        f1.len() == f2.len(),
        forall|k: int| 0 <= k < f1.len() ==> f1[k] <= f2[k],
        0 <= n < m < f1.len(),
        n <= i <= j <= m,
    ensures
        scan_best(f1, n, m, j, i) <= scan_best(f2, n, m, j, i),
    decreases seg_len(n, m), 1int, j - n, i - n,
{
    if n < i {
        lemma_scan_mono(f1, f2, n, m, j, i - 1);
        lemma_split_mono(f1, f2, n, m, i, j);
    } else if n < j {
        lemma_scan_mono(f1, f2, n, m, j - 1, j - 1);
        lemma_split_mono(f1, f2, n, m, n, j);
    } else {
        lemma_split_mono(f1, f2, n, m, n, n);
    }
}

proof fn lemma_split_mono(f1: Seq<int>, f2: Seq<int>, n: int, m: int, i: int, j: int)
    requires
        f1.len() == f2.len(),
        forall|k: int| 0 <= k < f1.len() ==> f1[k] <= f2[k],
        0 <= n < m < f1.len(),
        n <= i <= j <= m,
    ensures
        split_cost(f1, n, m, i, j) <= split_cost(f2, n, m, i, j),
    decreases seg_len(n, m), 0int, 0int, 0int,
{
    lemma_sum_mono(f1, f2, n, m);
    lemma_cost_mono(f1, f2, n, i - 1);
    lemma_cost_mono(f1, f2, i + 1, j - 1);
    lemma_cost_mono(f1, f2, j + 1, m);
}

/// Raising a single key's access weight never lowers the total optimal
/// cost of the whole sequence.
pub proof fn lemma_raise_one_weight(freq: Seq<int>, k: int, raised: int)
    requires
        freq.len() >= 1,
        0 <= k < freq.len(),
        freq[k] <= raised,
    ensures
        best_cost(freq, 0, freq.len() - 1) <= best_cost(
            freq.update(k, raised),
            0,
            freq.len() - 1,
        ),
{
    lemma_cost_mono(freq, freq.update(k, raised), 0, freq.len() - 1);
}

/// With uniform weights the optimal cost is a function of the number of
/// keys and the common weight alone: two weight sequences of the same
/// length holding the same constant have the same cost, whatever keys
/// they weigh.
pub proof fn lemma_uniform_weights(f1: Seq<int>, f2: Seq<int>, c: int)
    requires
        f1.len() == f2.len(),
        forall|k: int| 0 <= k < f1.len() ==> f1[k] == c,
        forall|k: int| 0 <= k < f2.len() ==> f2[k] == c,
    ensures
        best_cost(f1, 0, f1.len() - 1) == best_cost(f2, 0, f2.len() - 1),
{
    assert(f1 =~= f2);
}

/// Every key of an interval pays at least its own weight once: the
/// optimal cost dominates the interval's weight sum.
pub proof fn lemma_cost_dominates_weight(freq: Seq<int>, n: int, m: int)
    requires
        all_nonneg(freq),
        0 <= n <= m < freq.len(),
    ensures
        best_cost(freq, n, m) >= interval_sum(freq, n, m),
{
    lemma_cost_ge_sum(freq, n, m);
}

proof fn lemma_cost_ge_sum(freq: Seq<int>, a: int, b: int)
    requires
        all_nonneg(freq),
        0 <= a,
        b < freq.len(),
    ensures
        best_cost(freq, a, b) >= 0,
        a <= b ==> best_cost(freq, a, b) >= interval_sum(freq, a, b),
    decreases seg_len(a, b), 2int, 0int, 0int,
{
    if a > b {
    } else if a == b {
        assert(interval_sum(freq, a, a - 1) == 0);
    } else {
        lemma_scan_ge_sum(freq, a, b, b, b);
        lemma_sum_nonneg(freq, a, b);
    }
}

proof fn lemma_scan_ge_sum(freq: Seq<int>, n: int, m: int, j: int, i: int)
    requires
        all_nonneg(freq),
        0 <= n < m < freq.len(),
        n <= i <= j <= m,
    ensures
        scan_best(freq, n, m, j, i) >= interval_sum(freq, n, m),
    decreases seg_len(n, m), 1int, j - n, i - n,
{
    if n < i {
        lemma_scan_ge_sum(freq, n, m, j, i - 1);
        lemma_split_ge_sum(freq, n, m, i, j);
    } else if n < j {
        lemma_scan_ge_sum(freq, n, m, j - 1, j - 1);
        lemma_split_ge_sum(freq, n, m, n, j);
    } else {
        lemma_split_ge_sum(freq, n, m, n, n);
    }
}

proof fn lemma_split_ge_sum(freq: Seq<int>, n: int, m: int, i: int, j: int)
    requires
        all_nonneg(freq),
        0 <= n < m < freq.len(),
        n <= i <= j <= m,
    ensures
        split_cost(freq, n, m, i, j) >= interval_sum(freq, n, m),
    decreases seg_len(n, m), 0int, 0int, 0int,
{
    lemma_cost_ge_sum(freq, n, i - 1);
    lemma_cost_ge_sum(freq, i + 1, j - 1);
    lemma_cost_ge_sum(freq, j + 1, m);
}

/// Total cost of the tree rebuilt by following the recorded split pairs
/// down from the interval `[n, m]`: each node contributes its interval's
/// weight sum, leaves and empty gaps end the recursion.
pub open spec fn expand_cost(freq: Seq<int>, n: int, m: int) -> int
    decreases seg_len(n, m),
{
    if n > m {
        0
    } else if n == m {
        freq[n]
    } else if n <= best_split(freq, n, m).0 && best_split(freq, n, m).0 <= best_split(
        freq,
        n,
        m,
    ).1 && best_split(freq, n, m).1 <= m {
        interval_sum(freq, n, m) + expand_cost(freq, n, best_split(freq, n, m).0 - 1)
            + expand_cost(freq, best_split(freq, n, m).0 + 1, best_split(freq, n, m).1 - 1)
            + expand_cost(freq, best_split(freq, n, m).1 + 1, m)
    } else {
        0
    }
}

/// How many times the rebuilt tree places the key with index `k` while
/// expanding the recorded split pairs down from the interval `[n, m]`.
pub open spec fn visit_count(freq: Seq<int>, n: int, m: int, k: int) -> int
    decreases seg_len(n, m),
{
    if n > m {
        0
    } else if n == m {
        if k == n {
            1
        } else {
            0
        }
    } else if n <= best_split(freq, n, m).0 && best_split(freq, n, m).0 <= best_split(
        freq,
        n,
        m,
    ).1 && best_split(freq, n, m).1 <= m {
        (if k == best_split(freq, n, m).0 {
            1int
        } else {
            0int
        }) + (if k == best_split(freq, n, m).1 && best_split(freq, n, m).1 != best_split(
            freq,
            n,
            m,
        ).0 {
            1int
        } else {
            0int
        }) + visit_count(freq, n, best_split(freq, n, m).0 - 1, k) + visit_count(
            freq,
            best_split(freq, n, m).0 + 1,
            best_split(freq, n, m).1 - 1,
            k,
        ) + visit_count(freq, best_split(freq, n, m).1 + 1, m, k)
    } else {
        0
    }
}

/// Rebuilding the tree from the recorded split pairs visits every key of
/// the interval exactly once, no key outside it, and reproduces the
/// computed optimal cost.
pub proof fn lemma_reconstruction(freq: Seq<int>, n: int, m: int)
    ensures
        expand_cost(freq, n, m) == best_cost(freq, n, m),
        forall|k: int| n <= k <= m ==> visit_count(freq, n, m, k) == 1,
        forall|k: int| !(n <= k <= m) ==> visit_count(freq, n, m, k) == 0,
    decreases seg_len(n, m),
{
    if n < m {
        lemma_best_split(freq, n, m);
        let s = best_split(freq, n, m);
        lemma_reconstruction(freq, n, s.0 - 1);
        lemma_reconstruction(freq, s.0 + 1, s.1 - 1);
        lemma_reconstruction(freq, s.1 + 1, m);
        assert forall|k: int| n <= k <= m implies visit_count(freq, n, m, k) == 1 by {
            if k < s.0 {
                assert(visit_count(freq, n, s.0 - 1, k) == 1);
                assert(visit_count(freq, s.0 + 1, s.1 - 1, k) == 0);
                assert(visit_count(freq, s.1 + 1, m, k) == 0);
            } else if k == s.0 {
                assert(visit_count(freq, n, s.0 - 1, k) == 0);
                assert(visit_count(freq, s.0 + 1, s.1 - 1, k) == 0);
                assert(visit_count(freq, s.1 + 1, m, k) == 0);
            } else if k < s.1 {
                assert(visit_count(freq, n, s.0 - 1, k) == 0);
                assert(visit_count(freq, s.0 + 1, s.1 - 1, k) == 1);
                assert(visit_count(freq, s.1 + 1, m, k) == 0);
            } else if k == s.1 {
                assert(visit_count(freq, n, s.0 - 1, k) == 0);
                assert(visit_count(freq, s.0 + 1, s.1 - 1, k) == 0);
                assert(visit_count(freq, s.1 + 1, m, k) == 0);
            } else {
                assert(visit_count(freq, n, s.0 - 1, k) == 0);
                assert(visit_count(freq, s.0 + 1, s.1 - 1, k) == 0);
                assert(visit_count(freq, s.1 + 1, m, k) == 1);
            }
        }
        assert forall|k: int| !(n <= k <= m) implies visit_count(freq, n, m, k) == 0 by {
            assert(visit_count(freq, n, s.0 - 1, k) == 0);
            assert(visit_count(freq, s.0 + 1, s.1 - 1, k) == 0);
            assert(visit_count(freq, s.1 + 1, m, k) == 0);
        }
    }
}

} // verus!
