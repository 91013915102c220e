use vstd::prelude::*;

use crate::model::all_nonneg;
use crate::model::best_cost;
use crate::model::best_split;
use crate::model::costs_fit;
use crate::model::interval_sum;
use crate::model::lemma_sum_nonneg;
use crate::model::lemma_sum_within;
use crate::model::prefix_fits;
use crate::model::scan_best;
use crate::model::scan_pick;
use crate::model::split_cost;

verus! {

/// Why a solver could not be built or run: the input breaks a
/// construction rule, or a cost does not fit in a `u64`.
#[derive(Clone, Copy, Debug, PartialEq, Eq, Structural)]
pub enum TreeError {
    InvalidInput,
    Overflow,
}

/// The keys and weights as given, checked at construction.
pub open spec fn valid_input(keys: Seq<u64>, freq: Seq<i64>) -> bool {
    &&& keys.len() == freq.len()
    &&& freq.len() >= 1
    &&& forall|p: int, q: int| 0 <= p < q < keys.len() ==> keys[p] < keys[q]
    &&& forall|k: int| 0 <= k < freq.len() ==> freq[k] >= 0
}

/// The given weights as mathematical integers.
pub open spec fn weights_of(freq: Seq<i64>) -> Seq<int> {
    freq.map_values(|w: i64| w as int)
}

/// Triangular dynamic-programming solver: owns the sorted keys and their
/// access weights, the per-interval weight sums, and — once `calculate`
/// has run — the optimal cost and recorded split pair of every interval.
pub struct MinCostB3Tree {
    keys: Vec<u64>,
    freq: Vec<u64>,
    sum_freq: Vec<Vec<u64>>,
    opt_cost: Vec<Vec<u64>>,
    root: Vec<Vec<(Option<u64>, Option<u64>)>>,
}

impl MinCostB3Tree {
    /// The owned weights as mathematical integers.
    pub closed spec fn freqs(&self) -> Seq<int> {
        self.freq@.map_values(|w: u64| w as int)
    }

    /// Number of keys.
    pub closed spec fn n(&self) -> int {
        self.freq@.len() as int
    }

    /// The owned keys.
    pub closed spec fn key_seq(&self) -> Seq<u64> {
        self.keys@
    }

    /// The stored cost-table entry of the interval `[a, b]`.
    pub closed spec fn cost_cell(&self, a: int, b: int) -> u64 {
        self.opt_cost@[a]@[b]
    }

    /// The stored split pair of the interval `[a, b]`.
    pub closed spec fn split_cell(&self, a: int, b: int) -> (Option<u64>, Option<u64>) {
        self.root@[a]@[b]
    }

    /// Shape of a built solver: square tables, sorted keys, and weight
    /// sums that match the owned weights.
    pub closed spec fn wf(&self) -> bool {
        &&& 1 <= self.n()
        &&& self.keys@.len() == self.n()
        &&& forall|p: int, q: int| 0 <= p < q < self.n() ==> self.keys@[p] < self.keys@[q]
        &&& self.sum_freq@.len() == self.n()
        &&& forall|a: int|
            0 <= a < self.n() ==> (#[trigger] self.sum_freq@[a])@.len() == self.n()
        &&& forall|a: int, b: int|
            0 <= a <= b < self.n() ==> (#[trigger] self.sum_freq@[a]@[b]) as int == interval_sum(
                self.freqs(),
                a,
                b,
            )
        &&& self.opt_cost@.len() == self.n()
        &&& forall|a: int|
            0 <= a < self.n() ==> (#[trigger] self.opt_cost@[a])@.len() == self.n()
        &&& self.root@.len() == self.n()
        &&& forall|a: int| 0 <= a < self.n() ==> (#[trigger] self.root@[a])@.len() == self.n()
    }

    /// Cell `[a, b]` holds the optimal cost and the recorded split pair.
    pub closed spec fn cell_solved(&self, a: int, b: int) -> bool {
        &&& self.opt_cost@[a]@[b] as int == best_cost(self.freqs(), a, b)
        &&& self.root@[a]@[b] == (
            Some(best_split(self.freqs(), a, b).0 as u64),
            Some(best_split(self.freqs(), a, b).1 as u64),
        )
    }

    /// Every interval's cell has been filled.
    pub closed spec fn solved(&self) -> bool {
        forall|a: int, b: int| 0 <= a <= b < self.n() ==> #[trigger] self.cell_solved(a, b)
    }

    /// Builds a solver over `keys` and their access weights `freq`.
    ///
    /// Fails with `InvalidInput` when the lengths differ, no key is
    /// given, the keys are not strictly ascending, or a weight is
    /// negative; fails with `Overflow` when the total weight does not
    /// fit in a `u64`. Otherwise the weight-sum table is filled and the
    /// cost and split tables await `calculate`.
    pub fn new(keys: Vec<u64>, freq: Vec<i64>) -> (r: Result<MinCostB3Tree, TreeError>)
        ensures
            r is Ok <==> valid_input(keys@, freq@) && interval_sum(
                weights_of(freq@),
                0,
                freq@.len() - 1,
            ) <= u64::MAX,
            r matches Ok(t) ==> t.wf() && t.key_seq() == keys@ && t.freqs() == weights_of(freq@),
            r matches Err(e) ==> (e == TreeError::InvalidInput <==> !valid_input(keys@, freq@)),
            r matches Err(e) ==> (e == TreeError::Overflow <==> valid_input(keys@, freq@)
                && interval_sum(weights_of(freq@), 0, freq@.len() - 1) > u64::MAX),
    {
        let n = keys.len();
        if n != freq.len() || n == 0 {
            return Err(TreeError::InvalidInput);
        }
        let mut p: usize = 1;
        while p < n
            invariant
                1 <= p <= n,
                n == keys@.len(),
                forall|a: int, b: int| 0 <= a < b < p ==> keys@[a] < keys@[b],
            decreases n - p,
        {
            if keys[p - 1] >= keys[p] {
                return Err(TreeError::InvalidInput);
            }
            p += 1;
        }
        let ghost fm = weights_of(freq@);
        let mut w: Vec<u64> = Vec::new();
        let mut k: usize = 0;
        while k < n
            invariant
                0 <= k <= n,
                n == freq@.len(),
                w@.len() == k,
                forall|t: int| 0 <= t < k ==> freq@[t] >= 0,
                forall|t: int| 0 <= t < k ==> #[trigger] w@[t] as int == freq@[t] as int,
            decreases n - k,
        {
            let x = freq[k];
            if x < 0 {
                return Err(TreeError::InvalidInput);
            }
            w.push(x as u64);
            k += 1;
        }
        proof {
            assert(valid_input(keys@, freq@));
            assert(w@.map_values(|u: u64| u as int) =~= fm);
            assert(all_nonneg(fm));
        }
        let mut total: u64 = 0;
        let mut t: usize = 0;
        while t < n
            invariant
                0 <= t <= n,
                n == w@.len(),
                n == fm.len(),
                n == freq@.len(),
                valid_input(keys@, freq@),
                fm == weights_of(freq@),
                all_nonneg(fm),
                w@.map_values(|u: u64| u as int) == fm,
                total as int == interval_sum(fm, 0, t - 1),
            decreases n - t,
        {
            let step = w[t];
            proof {
                assert(step as int == fm[t as int]);
            }
            total = match total.checked_add(step) {
                Some(v) => v,
                None => {
                    proof {
                        assert(interval_sum(fm, 0, t as int) == interval_sum(fm, 0, t - 1)
                            + fm[t as int]);
                        lemma_sum_within(fm, 0, t as int, 0, n - 1);
                    }
                    return Err(TreeError::Overflow);
                },
            };
            t += 1;
        }
        let mut table: Vec<Vec<u64>> = Vec::new();
        let mut a: usize = 0;
        while a < n
            invariant
                0 <= a <= n,
                n == w@.len(),
                n == fm.len(),
                all_nonneg(fm),
                w@.map_values(|u: u64| u as int) == fm,
                total as int == interval_sum(fm, 0, n - 1),
                table@.len() == a,
                forall|x: int| 0 <= x < a ==> (#[trigger] table@[x])@.len() == n,
                forall|x: int, y: int|
                    0 <= x <= y < n && x < a ==> (#[trigger] table@[x]@[y]) as int == interval_sum(
                        fm,
                        x,
                        y,
                    ),
            decreases n - a,
        {
            let mut row: Vec<u64> = Vec::new();
            let mut acc: u64 = 0;
            let mut b: usize = 0;
            while b < n
                invariant
                    0 <= b <= n,
                    a < n,
                    n == w@.len(),
                    n == fm.len(),
                    all_nonneg(fm),
                    w@.map_values(|u: u64| u as int) == fm,
                    total as int == interval_sum(fm, 0, n - 1),
                    row@.len() == b,
                    a < b ==> acc as int == interval_sum(fm, a as int, b - 1),
                    forall|y: int|
                        a <= y < b ==> (#[trigger] row@[y]) as int == interval_sum(fm, a as int, y),
                decreases n - b,
            {
                if b < a {
                    row.push(0);
                } else if b == a {
                    proof {
                        assert(interval_sum(fm, a as int, a - 1) == 0);
                        assert(interval_sum(fm, a as int, a as int) == fm[a as int]);
                        assert(w@[a as int] as int == fm[a as int]);
                    }
                    acc = w[a];
                    row.push(acc);
                } else {
                    proof {
                        lemma_sum_within(fm, a as int, b as int, 0, n - 1);
                        lemma_sum_nonneg(fm, a as int, b as int);
                        assert(w@[b as int] as int == fm[b as int]);
                        assert(interval_sum(fm, a as int, b as int) == interval_sum(
                            fm,
                            a as int,
                            b - 1,
                        ) + fm[b as int]);
                    }
                    acc = acc + w[b];
                    row.push(acc);
                }
                b += 1;
            }
            table.push(row);
            a += 1;
        }
        let cost_table = zero_table(n);
        let root_table = empty_split_table(n);
        let result = MinCostB3Tree {
            keys,
            freq: w,
            sum_freq: table,
            opt_cost: cost_table,
            root: root_table,
        };
        proof {
            assert(result.freqs() =~= weights_of(freq@));
        }
        Ok(result)
    }

    /// Cells strictly shorter than `[n, m]` already hold their optimal
    /// cost.
    pub closed spec fn shorter_solved(&self, n: int, m: int) -> bool {
        forall|a: int, b: int|
            0 <= a <= b < self.n() && b - a < m - n ==> (#[trigger] self.opt_cost@[a]@[b]) as int
                == best_cost(self.freqs(), a, b)
    }

    /// Cost of serving `[n, m]` with the split pair `(i, j)`, read from
    /// the weight sums and the already-solved shorter cells; `None` when
    /// that cost does not fit in a `u64`.
    fn split_candidate(&self, n: usize, m: usize, i: usize, j: usize) -> (r: Option<u64>)
        requires
            self.wf(),
            n <= i <= j <= m < self.n(),
            n < m,
            self.shorter_solved(n as int, m as int),
        ensures
            r matches Some(c) ==> c as int == split_cost(
                self.freqs(),
                n as int,
                m as int,
                i as int,
                j as int,
            ),
            r is Some <==> split_cost(self.freqs(), n as int, m as int, i as int, j as int)
                <= u64::MAX,
    {
        let ghost f = self.freqs();
        let base = self.sum_freq[n][m];
        let left: u64 = if i > n {
            self.opt_cost[n][i - 1]
        } else {
            0
        };
        let mid: u64 = if j - i >= 2 {
            self.opt_cost[i + 1][j - 1]
        } else {
            0
        };
        let right: u64 = if j < m {
            self.opt_cost[j + 1][m]
        } else {
            0
        };
        proof {
            assert(base as int == interval_sum(f, n as int, m as int));
            assert(left as int == best_cost(f, n as int, i - 1));
            assert(mid as int == best_cost(f, i + 1, j - 1));
            assert(right as int == best_cost(f, j + 1, m as int));
            assert(split_cost(f, n as int, m as int, i as int, j as int) == base + left + mid
                + right);
        }
        let s1 = match base.checked_add(left) {
            Some(v) => v,
            None => {
                return None;
            },
        };
        let s2 = match s1.checked_add(mid) {
            Some(v) => v,
            None => {
                return None;
            },
        };
        let s3 = match s2.checked_add(right) {
            Some(v) => v,
            None => {
                return None;
            },
        };
        Some(s3)
    }

    /// Solves the cell `[n, m]`: returns its optimal cost and records the
    /// winning split pair, scanning the candidates in ascending `(j, i)`
    /// order and keeping the first one that attains the minimum.
    fn calc_opt_cost(&mut self, n: usize, m: usize) -> (r: Result<u64, TreeError>)
        requires
            old(self).wf(),
            n <= m < old(self).n(),
            old(self).shorter_solved(n as int, m as int),
        ensures
            final(self).wf(),
            final(self).keys@ == old(self).keys@,
            final(self).freq@ == old(self).freq@,
            final(self).sum_freq@ == old(self).sum_freq@,
            final(self).opt_cost@ == old(self).opt_cost@,
            final(self).root@.len() == old(self).root@.len(),
            forall|a: int, b: int|
                0 <= a < old(self).n() && 0 <= b < old(self).n() && !(a == n as int && b
                    == m as int) ==> final(self).root@[a]@[b] == old(self).root@[a]@[b],
            r is Ok <==> (n == m || forall|i: int, j: int|
                n <= i <= j <= m ==> #[trigger] split_cost(
                    old(self).freqs(),
                    n as int,
                    m as int,
                    i,
                    j,
                ) <= u64::MAX),
            r matches Ok(c) ==> c as int == best_cost(old(self).freqs(), n as int, m as int)
                && final(self).root@[n as int]@[m as int] == (
            Some(best_split(old(self).freqs(), n as int, m as int).0 as u64),
            Some(best_split(old(self).freqs(), n as int, m as int).1 as u64),
            ),
            r is Err ==> r == Err::<u64, TreeError>(TreeError::Overflow) && *final(self) == *old(
                self,
            ),
    {
        let ghost f = old(self).freqs();
        if n == m {
            self.root[n][m] = (Some(n as u64), Some(m as u64));
            let c = self.freq[n];
            proof {
                assert(best_cost(f, n as int, n as int) == f[n as int]);
                assert(c as int == f[n as int]);
            }
            return Ok(c);
        }
        let first = match self.split_candidate(n, m, n, n) {
            Some(c) => c,
            None => {
                return Err(TreeError::Overflow);
            },
        };
        // m indexes the owned square tables, so m + 1 fits in a usize
        let key_total = self.freq.len();
        assert(m < key_total);
        let mut best: u64 = first;
        let mut bi: usize = n;
        let mut bj: usize = n;
        let mut j: usize = n;
        while j <= m
            invariant
                self.wf(),
                *self == *old(self),
                f == self.freqs(),
                n < m,
                (m as int) < self.n(),
                m < usize::MAX,
                self.shorter_solved(n as int, m as int),
                n <= j <= m + 1,
                n <= bi <= bj <= m,
                best as int == scan_best(
                    f,
                    n as int,
                    m as int,
                    if j == n { n as int } else { j - 1 },
                    if j == n { n as int } else { j - 1 },
                ),
                bi as int == scan_pick(
                    f,
                    n as int,
                    m as int,
                    if j == n { n as int } else { j - 1 },
                    if j == n { n as int } else { j - 1 },
                ).0,
                bj as int == scan_pick(
                    f,
                    n as int,
                    m as int,
                    if j == n { n as int } else { j - 1 },
                    if j == n { n as int } else { j - 1 },
                ).1,
                prefix_fits(
                    f,
                    n as int,
                    m as int,
                    if j == n { n as int } else { j - 1 },
                    if j == n { n as int } else { j - 1 },
                ),
            decreases m + 1 - j,
        {
            let mut i: usize = n;
            while i <= j
                invariant
                    self.wf(),
                    *self == *old(self),
                    f == self.freqs(),
                    n < m,
                    (m as int) < self.n(),
                    m < usize::MAX,
                    self.shorter_solved(n as int, m as int),
                    n <= j <= m,
                    n <= i <= j + 1,
                    n <= bi <= bj <= m,
                    best as int == scan_best(
                        f,
                        n as int,
                        m as int,
                        if i > n { j as int } else if j > n { j - 1 } else { n as int },
                        if i > n { i - 1 } else if j > n { j - 1 } else { n as int },
                    ),
                    bi as int == scan_pick(
                        f,
                        n as int,
                        m as int,
                        if i > n { j as int } else if j > n { j - 1 } else { n as int },
                        if i > n { i - 1 } else if j > n { j - 1 } else { n as int },
                    ).0,
                    bj as int == scan_pick(
                        f,
                        n as int,
                        m as int,
                        if i > n { j as int } else if j > n { j - 1 } else { n as int },
                        if i > n { i - 1 } else if j > n { j - 1 } else { n as int },
                    ).1,
                    prefix_fits(
                        f,
                        n as int,
                        m as int,
                        if i > n { j as int } else if j > n { j - 1 } else { n as int },
                        if i > n { i - 1 } else if j > n { j - 1 } else { n as int },
                    ),
                decreases j + 1 - i,
            {
                let cand = match self.split_candidate(n, m, i, j) {
                    Some(c) => c,
                    None => {
                        return Err(TreeError::Overflow);
                    },
                };
                if cand < best {
                    best = cand;
                    bi = i;
                    bj = j;
                }
                i += 1;
            }
            j += 1;
        }
        self.root[n][m] = (Some(bi as u64), Some(bj as u64));
        proof {
            assert forall|i2: int, j2: int| n <= i2 <= j2 <= m implies #[trigger] split_cost(
                f,
                n as int,
                m as int,
                i2,
                j2,
            ) <= u64::MAX by {
                assert(prefix_fits(f, n as int, m as int, m as int, m as int));
            }
            assert(best as int == best_cost(f, n as int, m as int));
        }
        Ok(best)
    }

    /// Fills the cost and split tables for every interval, in order of
    /// non-decreasing interval length, and returns the minimum total
    /// access cost of the whole key sequence.
    ///
    /// Fails with `Overflow` exactly when some candidate split cost does
    /// not fit in a `u64`; the result is otherwise the optimal cost, a
    /// pure function of the weights, so a repeated call returns the same
    /// value.
    pub fn calculate(&mut self) -> (r: Result<u64, TreeError>)
        requires
            old(self).wf(),
        ensures
            final(self).wf(),
            final(self).key_seq() == old(self).key_seq(),
            final(self).freqs() == old(self).freqs(),
            final(self).n() == old(self).n(),
            r is Ok <==> costs_fit(old(self).freqs()),
            r matches Ok(c) ==> c as int == best_cost(old(self).freqs(), 0, old(self).n() - 1)
                && final(self).solved(),
            r is Err ==> r == Err::<u64, TreeError>(TreeError::Overflow),
    {
        let ghost f = old(self).freqs();
        let key_total = self.freq.len();
        let mut len: usize = 0;
        while len < key_total
            invariant
                self.wf(),
                self.keys@ == old(self).keys@,
                self.freq@ == old(self).freq@,
                self.sum_freq@ == old(self).sum_freq@,
                f == self.freqs(),
                key_total == self.n(),
                0 <= len <= key_total,
                forall|a: int, b: int|
                    0 <= a <= b < key_total && b - a < len ==> #[trigger] self.cell_solved(a, b),
                forall|a: int, b: int, i2: int, j2: int|
                    0 <= a <= i2 <= j2 <= b < key_total && a < b && b - a < len
                        ==> #[trigger] split_cost(f, a, b, i2, j2) <= u64::MAX,
            decreases key_total - len,
        {
            let mut s: usize = 0;
            while s + len < key_total
                invariant
                    self.wf(),
                    self.keys@ == old(self).keys@,
                    self.freq@ == old(self).freq@,
                    self.sum_freq@ == old(self).sum_freq@,
                    f == self.freqs(),
                    key_total == self.n(),
                    0 <= len < key_total,
                    0 <= s <= key_total - len,
                    forall|a: int, b: int|
                        0 <= a <= b < key_total && b - a < len ==> #[trigger] self.cell_solved(
                            a,
                            b,
                        ),
                    forall|a: int, b: int|
                        0 <= a <= b < key_total && b - a == len && a < s
                            ==> #[trigger] self.cell_solved(a, b),
                    forall|a: int, b: int, i2: int, j2: int|
                        0 <= a <= i2 <= j2 <= b < key_total && a < b && (b - a < len || (b - a
                            == len && a < s)) ==> #[trigger] split_cost(f, a, b, i2, j2)
                            <= u64::MAX,
                decreases key_total - len - s,
            {
                let a = s;
                let b = s + len;
                proof {
                    assert forall|x: int, y: int|
                        0 <= x <= y < self.n() && y - x < b - a implies (
                    #[trigger] self.opt_cost@[x]@[y]) as int == best_cost(self.freqs(), x, y) by {
                        assert(self.cell_solved(x, y));
                    }
                    assert(self.shorter_solved(a as int, b as int));
                }
                let ghost before = *self;
                let c = match self.calc_opt_cost(a, b) {
                    Ok(c) => c,
                    Err(e) => {
                        proof {
                            assert(!costs_fit(f));
                        }
                        return Err(e);
                    },
                };
                let ghost mid = *self;
                self.opt_cost[a][b] = c;
                proof {
                    assert forall|x: int, y: int|
                        0 <= x <= y < key_total && (y - x < len || (y - x == len && x < s
                            + 1)) implies #[trigger] self.cell_solved(x, y) by {
                        if x == a as int && y == b as int {
                            assert(self.opt_cost@[x]@[y] == c);
                            assert(self.root@[x]@[y] == mid.root@[x]@[y]);
                        } else {
                            assert(before.cell_solved(x, y));
                            assert(self.opt_cost@[x]@[y] == before.opt_cost@[x]@[y]);
                            assert(self.root@[x]@[y] == before.root@[x]@[y]);
                        }
                    }
                }
                s += 1;
            }
            len += 1;
        }
        proof {
            assert(self.solved());
            assert(costs_fit(f));
            assert(self.cell_solved(0, key_total - 1));
        }
        Ok(self.opt_cost[0][key_total - 1])
    }

    /// Number of keys the solver was built over.
    pub fn size(&self) -> (r: usize)
        ensures
            r as int == self.n(),
    {
        self.freq.len()
    }

    /// Total access weight of the keys in the interval `[a, b]`.
    pub fn interval_weight(&self, a: usize, b: usize) -> (r: u64)
        requires
            self.wf(),
            a <= b,
            (b as int) < self.n(),
        ensures
            r as int == interval_sum(self.freqs(), a as int, b as int),
    {
        self.sum_freq[a][b]
    }

    /// The stored cost of the interval `[a, b]`: the optimal cost once
    /// `calculate` has filled the tables.
    pub fn cost_at(&self, a: usize, b: usize) -> (r: u64)
        requires
            self.wf(),
            a <= b,
            (b as int) < self.n(),
        ensures
            r == self.cost_cell(a as int, b as int),
            self.solved() ==> r as int == best_cost(self.freqs(), a as int, b as int),
    {
        proof {
            if self.solved() {
                assert(self.cell_solved(a as int, b as int));
            }
        }
        self.opt_cost[a][b]
    }

    /// The stored split pair of the interval `[a, b]`: once `calculate`
    /// has filled the tables, the first pair in ascending `(j, i)` order
    /// that attains the interval's optimal cost.
    pub fn root_at(&self, a: usize, b: usize) -> (r: (Option<u64>, Option<u64>))
        requires
            self.wf(),
            a <= b,
            (b as int) < self.n(),
        ensures
            r == self.split_cell(a as int, b as int),
            self.solved() ==> r == (
                Some(best_split(self.freqs(), a as int, b as int).0 as u64),
                Some(best_split(self.freqs(), a as int, b as int).1 as u64),
            ),
    {
        proof {
            if self.solved() {
                assert(self.cell_solved(a as int, b as int));
            }
        }
        self.root[a][b]
    }
}

/// A square table of zero costs.
fn zero_table(n: usize) -> (t: Vec<Vec<u64>>)
    ensures
        t@.len() == n,
        forall|a: int| 0 <= a < n ==> (#[trigger] t@[a])@.len() == n,
{
    let mut t: Vec<Vec<u64>> = Vec::new();
    let mut a: usize = 0;
    while a < n
        invariant
            0 <= a <= n,
            t@.len() == a,
            forall|x: int| 0 <= x < a ==> (#[trigger] t@[x])@.len() == n,
        decreases n - a,
    {
        let mut row: Vec<u64> = Vec::new();
        let mut b: usize = 0;
        while b < n
            invariant
                0 <= b <= n,
                row@.len() == b,
            decreases n - b,
        {
            row.push(0);
            b += 1;
        }
        t.push(row);
        a += 1;
    }
    t
}

/// A square table of unset split pairs.
fn empty_split_table(n: usize) -> (t: Vec<Vec<(Option<u64>, Option<u64>)>>)
    ensures
        t@.len() == n,
        forall|a: int| 0 <= a < n ==> (#[trigger] t@[a])@.len() == n,
{
    let mut t: Vec<Vec<(Option<u64>, Option<u64>)>> = Vec::new();
    let mut a: usize = 0;
    while a < n
        invariant
            0 <= a <= n,
            t@.len() == a,
            forall|x: int| 0 <= x < a ==> (#[trigger] t@[x])@.len() == n,
        decreases n - a,
    {
        let mut row: Vec<(Option<u64>, Option<u64>)> = Vec::new();
        let mut b: usize = 0;
        while b < n
            invariant
                0 <= b <= n,
                row@.len() == b,
            decreases n - b,
        {
            row.push((None, None));
            b += 1;
        }
        t.push(row);
        a += 1;
    }
    t
}

} // verus!
