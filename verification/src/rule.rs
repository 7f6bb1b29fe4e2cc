//! The randomized split rule: the atomic decision primitive.
//!
//! For every feature the rule draws one threshold uniformly at random between
//! that feature's minimum and maximum over the given sample subset, scores the
//! induced two-bucket partition by its total within-bucket sum of squared
//! deviations, and keeps the feature with the smallest impurity; ties go to
//! the first feature. A feature that is constant over the subset yields no
//! candidate, and a rule with no candidate at all reports a degenerate split.
//!
//! The threshold is an integer tick drawn from the half-open range
//! `[min, max)`. This is the tick rendering of drawing a real number from the
//! open interval `(min, max)`: samples are whole ticks, so a real threshold
//! in `(t, t + 1)` partitions them exactly as the tick `t` does, and the
//! partitions reachable from the open real interval are exactly those of the
//! integer thresholds `min, .., max - 1`. In particular a feature whose
//! extremes are one tick apart still admits its one separating threshold,
//! `min`.

use vstd::prelude::*;
use crate::array::{indices_ok, select_vals, Matrix};
use crate::error::ModelError;
use crate::numerics::{
    all_within, lemma_mean_between, lemma_sq_dev_sum_bound, mean, mean_i64, sq_dev_sum,
};
use crate::random::RandomSource;
use crate::{RESIDUAL_BOUND, SAMPLES_BOUND, VALUE_BOUND};

verus! {

/// One fitted feature/threshold decision with its two constant values.
#[derive(Clone, Copy, Debug, PartialEq, Eq, Structural)]
pub struct Split {
    /// The feature row the threshold applies to.
    pub feature: usize,
    /// Samples with feature value at most this go left, the rest right.
    pub threshold: i64,
    /// Total within-bucket sum of squared deviations; lower is better.
    pub impurity: i128,
    /// Mean target of the left bucket.
    pub value_left: i64,
    /// Mean target of the right bucket.
    pub value_right: i64,
}

/// The smallest value of `c` at the positions in `idx`; meaningful only for
/// nonempty `idx`.
pub open spec fn min_sel(c: Seq<i64>, idx: Seq<usize>) -> int
    decreases idx.len(),
{
    if idx.len() <= 1 {
        c[idx[0] as int] as int
    } else {
        let m = min_sel(c, idx.drop_last());
        if c[idx.last() as int] < m {
            c[idx.last() as int] as int
        } else {
            m
        }
    }
}

/// The largest value of `c` at the positions in `idx`; meaningful only for
/// nonempty `idx`.
pub open spec fn max_sel(c: Seq<i64>, idx: Seq<usize>) -> int
    decreases idx.len(),
{
    if idx.len() <= 1 {
        c[idx[0] as int] as int
    } else {
        let m = max_sel(c, idx.drop_last());
        if c[idx.last() as int] > m {
            c[idx.last() as int] as int
        } else {
            m
        }
    }
}

/// Target values of the selected samples whose feature value is at most `t`.
pub open spec fn left_sel(c: Seq<i64>, tgt: Seq<i64>, idx: Seq<usize>, t: i64) -> Seq<i64>
    decreases idx.len(),
{
    if idx.len() == 0 {
        Seq::empty()
    } else {
        let rest = left_sel(c, tgt, idx.drop_last(), t);
        if c[idx.last() as int] <= t {
            rest.push(tgt[idx.last() as int])
        } else {
            rest
        }
    }
}

/// Target values of the selected samples whose feature value exceeds `t`.
pub open spec fn right_sel(c: Seq<i64>, tgt: Seq<i64>, idx: Seq<usize>, t: i64) -> Seq<i64>
    decreases idx.len(),
{
    if idx.len() == 0 {
        Seq::empty()
    } else {
        let rest = right_sel(c, tgt, idx.drop_last(), t);
        if c[idx.last() as int] > t {
            rest.push(tgt[idx.last() as int])
        } else {
            rest
        }
    }
}

/// The selected sample indices whose feature value is at most `t`.
pub open spec fn left_idx(c: Seq<i64>, idx: Seq<usize>, t: i64) -> Seq<usize>
    decreases idx.len(),
{
    if idx.len() == 0 {
        Seq::empty()
    } else {
        let rest = left_idx(c, idx.drop_last(), t);
        if c[idx.last() as int] <= t {
            rest.push(idx.last())
        } else {
            rest
        }
    }
}

/// The selected sample indices whose feature value exceeds `t`.
pub open spec fn right_idx(c: Seq<i64>, idx: Seq<usize>, t: i64) -> Seq<usize>
    decreases idx.len(),
{
    if idx.len() == 0 {
        Seq::empty()
    } else {
        let rest = right_idx(c, idx.drop_last(), t);
        if c[idx.last() as int] > t {
            rest.push(idx.last())
        } else {
            rest
        }
    }
}

/// Sum of squared deviations of a bucket from its own truncated mean; an
/// empty bucket contributes nothing.
pub open spec fn bucket_ss(s: Seq<i64>) -> int {
    if s.len() == 0 {
        0
    } else {
        sq_dev_sum(s, mean(s))
    }
}

/// The impurity of splitting the selected samples of feature column `c` at
/// threshold `t`: the two buckets' sums of squared deviations, added.
pub open spec fn impurity_of(c: Seq<i64>, tgt: Seq<i64>, idx: Seq<usize>, t: i64) -> int {
    bucket_ss(left_sel(c, tgt, idx, t)) + bucket_ss(right_sel(c, tgt, idx, t))
}

/// The extremes of a selection are bounded by any bound on the column.
pub proof fn lemma_min_max_sel_within(c: Seq<i64>, idx: Seq<usize>, b: int)
    requires
        idx.len() > 0,
        indices_ok(idx, c.len() as int),
        all_within(c, b),
    ensures
        -b <= min_sel(c, idx) <= b,
        -b <= max_sel(c, idx) <= b,
        min_sel(c, idx) <= max_sel(c, idx),
    decreases idx.len(),
{
    if idx.len() == 1 {
        assert(-b <= c[idx[0] as int] <= b);
    } else {
        assert(indices_ok(idx.drop_last(), c.len() as int));
        lemma_min_max_sel_within(c, idx.drop_last(), b);
        assert(-b <= c[idx.last() as int] <= b);
    }
}

/// Selected bucket values inherit any bound on the full target.
pub proof fn lemma_sel_within(c: Seq<i64>, tgt: Seq<i64>, idx: Seq<usize>, t: i64, b: int)
    requires
        indices_ok(idx, tgt.len() as int),
        all_within(tgt, b),
    ensures
        all_within(left_sel(c, tgt, idx, t), b),
        all_within(right_sel(c, tgt, idx, t), b),
        left_sel(c, tgt, idx, t).len() + right_sel(c, tgt, idx, t).len() == idx.len(),
    decreases idx.len(),
{
    if idx.len() == 0 {
    } else {
        assert(indices_ok(idx.drop_last(), tgt.len() as int));
        lemma_sel_within(c, tgt, idx.drop_last(), t, b);
        assert(-b <= tgt[idx.last() as int] <= b);
        let l = left_sel(c, tgt, idx, t);
        let lrest = left_sel(c, tgt, idx.drop_last(), t);
        if c[idx.last() as int] <= t {
            assert(forall|i: int| 0 <= i < l.len() ==> -b <= #[trigger] l[i] <= b) by {
                assert(forall|i: int| 0 <= i < lrest.len() ==> -b <= #[trigger] lrest[i] <= b);
            }
        }
        let r = right_sel(c, tgt, idx, t);
        let rrest = right_sel(c, tgt, idx.drop_last(), t);
        if c[idx.last() as int] > t {
            assert(forall|i: int| 0 <= i < r.len() ==> -b <= #[trigger] r[i] <= b) by {
                assert(forall|i: int| 0 <= i < rrest.len() ==> -b <= #[trigger] rrest[i] <= b);
            }
        }
    }
}

/// A threshold at least the selection's minimum puts at least one sample in
/// the left bucket.
pub proof fn lemma_left_nonempty(c: Seq<i64>, tgt: Seq<i64>, idx: Seq<usize>, t: i64)
    requires
        idx.len() > 0,
        indices_ok(idx, c.len() as int),
        min_sel(c, idx) <= t,
    ensures
        left_sel(c, tgt, idx, t).len() > 0,
    decreases idx.len(),
{
    if idx.len() == 1 {
    } else {
        if c[idx.last() as int] <= t {
        } else {
            assert(indices_ok(idx.drop_last(), c.len() as int));
            lemma_left_nonempty(c, tgt, idx.drop_last(), t);
        }
    }
}

/// A threshold below the selection's maximum puts at least one sample in the
/// right bucket.
pub proof fn lemma_right_nonempty(c: Seq<i64>, tgt: Seq<i64>, idx: Seq<usize>, t: i64)
    requires
        idx.len() > 0,
        indices_ok(idx, c.len() as int),
        t < max_sel(c, idx),
    ensures
        right_sel(c, tgt, idx, t).len() > 0,
    decreases idx.len(),
{
    if idx.len() == 1 {
    } else {
        if c[idx.last() as int] > t {
        } else {
            assert(indices_ok(idx.drop_last(), c.len() as int));
            lemma_right_nonempty(c, tgt, idx.drop_last(), t);
        }
    }
}

/// The two index buckets partition the selection: they stay in range, their
/// sizes add up, and selecting the target through them gives the bucket
/// values.
pub proof fn lemma_idx_partition(c: Seq<i64>, tgt: Seq<i64>, idx: Seq<usize>, t: i64, n: int)
    requires
        indices_ok(idx, n),
    ensures
        indices_ok(left_idx(c, idx, t), n),
        indices_ok(right_idx(c, idx, t), n),
        left_idx(c, idx, t).len() + right_idx(c, idx, t).len() == idx.len(),
        select_vals(tgt, left_idx(c, idx, t)) == left_sel(c, tgt, idx, t),
        select_vals(tgt, right_idx(c, idx, t)) == right_sel(c, tgt, idx, t),
    decreases idx.len(),
{
    if idx.len() == 0 {
        assert(select_vals(tgt, left_idx(c, idx, t)) =~= left_sel(c, tgt, idx, t));
        assert(select_vals(tgt, right_idx(c, idx, t)) =~= right_sel(c, tgt, idx, t));
    } else {
        assert(indices_ok(idx.drop_last(), n));
        lemma_idx_partition(c, tgt, idx.drop_last(), t, n);
        assert(select_vals(tgt, left_idx(c, idx, t)) =~= left_sel(c, tgt, idx, t));
        assert(select_vals(tgt, right_idx(c, idx, t)) =~= right_sel(c, tgt, idx, t));
    }
}


/// A split is storable in a tree over `n_features` features: its feature
/// index is in range and its two values are bounded training residual means.
pub open spec fn wf_split(s: Split, n_features: int) -> bool {
    &&& 0 <= (s.feature as int) < n_features
    &&& -RESIDUAL_BOUND <= s.value_left <= RESIDUAL_BOUND
    &&& -RESIDUAL_BOUND <= s.value_right <= RESIDUAL_BOUND
    &&& -VALUE_BOUND <= s.threshold <= VALUE_BOUND
}

/// A feature is splittable over a selection when its values there are not
/// all equal.
pub open spec fn splittable(cols: Seq<Seq<i64>>, idx: Seq<usize>) -> bool {
    exists|f: int|
        0 <= f < cols.len() && min_sel(#[trigger] cols[f], idx) < max_sel(cols[f], idx)
}

/// What a successfully fitted split states about itself: its feature exists,
/// its threshold lies in `[min, max)` of that feature's selected extremes
/// (the tick rendering of the open real interval — see the module note), and
/// impurity and values are exactly the bucket statistics at that threshold.
pub open spec fn fitted_split_ok(cols: Seq<Seq<i64>>, tgt: Seq<i64>, idx: Seq<usize>, s: Split) -> bool {
    &&& 0 <= (s.feature as int) < cols.len()
    &&& min_sel(cols[s.feature as int], idx) <= s.threshold < max_sel(cols[s.feature as int], idx)
    &&& s.impurity as int == impurity_of(cols[s.feature as int], tgt, idx, s.threshold)
    &&& s.value_left as int == mean(left_sel(cols[s.feature as int], tgt, idx, s.threshold))
    &&& s.value_right as int == mean(right_sel(cols[s.feature as int], tgt, idx, s.threshold))
    &&& -RESIDUAL_BOUND <= s.value_left <= RESIDUAL_BOUND
    &&& -RESIDUAL_BOUND <= s.value_right <= RESIDUAL_BOUND
    &&& -VALUE_BOUND <= s.threshold <= VALUE_BOUND
}

/// The split `s` beats every drawn candidate, and strictly beats all earlier
/// features, so the first minimal impurity wins.
pub open spec fn first_minimal(
    cols: Seq<Seq<i64>>,
    tgt: Seq<i64>,
    idx: Seq<usize>,
    ths: Seq<Option<i64>>,
    s: Split,
) -> bool {
    &&& ths[s.feature as int] == Some(s.threshold)
    &&& forall|f: int|
        0 <= f < ths.len() ==> (#[trigger] ths[f] matches Some(t) ==> impurity_of(
            cols[f],
            tgt,
            idx,
            t,
        ) >= s.impurity as int)
    &&& forall|f: int|
        0 <= f < s.feature ==> (#[trigger] ths[f] matches Some(t) ==> impurity_of(
            cols[f],
            tgt,
            idx,
            t,
        ) > s.impurity as int)
}

/// The split was selected as `best_split` selects: there is an assignment of
/// one drawn candidate threshold to every splittable feature — each lying in
/// `[min, max)` of its feature's selected extremes, and only splittable
/// features having one — among which `s` has the first minimal impurity.
pub open spec fn chosen_first_minimal(
    cols: Seq<Seq<i64>>,
    tgt: Seq<i64>,
    idx: Seq<usize>,
    s: Split,
) -> bool {
    exists|ths: Seq<Option<i64>>|
        {
            &&& ths.len() == cols.len()
            &&& forall|g: int|
                0 <= g < ths.len() ==> ((#[trigger] ths[g]) is Some <==> min_sel(cols[g], idx)
                    < max_sel(cols[g], idx))
            &&& forall|g: int|
                0 <= g < ths.len() ==> (#[trigger] ths[g] matches Some(t) ==> min_sel(
                    cols[g],
                    idx,
                ) <= t < max_sel(cols[g], idx))
            &&& #[trigger] first_minimal(cols, tgt, idx, ths, s)
        }
}

/// The value a fitted split predicts for one feature value.
pub open spec fn split_value(s: Split, x: i64) -> i64 {
    if x > s.threshold {
        s.value_right
    } else {
        s.value_left
    }
}

/// The smallest and largest selected values of one feature row.
fn min_max_sel_exec(c: &Vec<i64>, idx: &Vec<usize>) -> (r: (i64, i64))
    requires
        idx@.len() > 0,
        indices_ok(idx@, c@.len() as int),
    ensures
        r.0 as int == min_sel(c@, idx@),
        r.1 as int == max_sel(c@, idx@),
{
    let mut mn = c[idx[0]];
    let mut mx = mn;
    let mut k: usize = 1;
    proof {
        assert(idx@.take(1).len() == 1);
        assert(idx@.take(1)[0] == idx@[0]);
    }
    while k < idx.len()
        invariant
            1 <= k <= idx@.len(),
            indices_ok(idx@, c@.len() as int),
            mn as int == min_sel(c@, idx@.take(k as int)),
            mx as int == max_sel(c@, idx@.take(k as int)),
        decreases idx@.len() - k,
    {
        proof {
            assert(idx@.take(k + 1).drop_last() =~= idx@.take(k as int));
            assert(idx@.take(k + 1).last() == idx@[k as int]);
        }
        let v = c[idx[k]];
        if v < mn {
            mn = v;
        }
        if v > mx {
            mx = v;
        }
        k = k + 1;
    }
    proof {
        assert(idx@.take(idx@.len() as int) =~= idx@);
    }
    (mn, mx)
}

/// Sum of squared deviations of a bounded slice from a bounded center.
fn sq_dev_exec(xs: &Vec<i64>, m: i64) -> (r: i128)
    requires
        all_within(xs@, RESIDUAL_BOUND as int),
        -RESIDUAL_BOUND <= m <= RESIDUAL_BOUND,
        xs@.len() <= SAMPLES_BOUND,
    ensures
        r as int == sq_dev_sum(xs@, m as int),
        0 <= r as int <= xs@.len() * (4 * (RESIDUAL_BOUND as int) * (RESIDUAL_BOUND as int)),
{
    let mut acc: i128 = 0;
    let mut k: usize = 0;
    proof {
        lemma_sq_dev_sum_bound(xs@, m as int, RESIDUAL_BOUND as int);
    }
    while k < xs.len()
        invariant
            all_within(xs@, RESIDUAL_BOUND as int),
            -RESIDUAL_BOUND <= m <= RESIDUAL_BOUND,
            xs@.len() <= SAMPLES_BOUND,
            0 <= k <= xs@.len(),
            acc as int == sq_dev_sum(xs@.take(k as int), m as int),
            0 <= acc,
        decreases xs@.len() - k,
    {
        proof {
            assert(xs@.take(k + 1).drop_last() =~= xs@.take(k as int));
            assert(all_within(xs@.take(k + 1), RESIDUAL_BOUND as int)) by {
                assert(forall|i: int|
                    0 <= i < k + 1 ==> xs@.take(k + 1)[i] == #[trigger] xs@[i]);
            }
            lemma_sq_dev_sum_bound(xs@.take(k + 1), m as int, RESIDUAL_BOUND as int);
            assert((k + 1) * (4 * (RESIDUAL_BOUND as int) * (RESIDUAL_BOUND as int))
                < i128::MAX) by (nonlinear_arith)
                requires
                    k + 1 <= SAMPLES_BOUND,
            ;
        }
        let d = xs[k] as i128 - m as i128;
        proof {
            assert(d * d <= 4 * (RESIDUAL_BOUND as int) * (RESIDUAL_BOUND as int))
                by (nonlinear_arith)
                requires
                    -(2 * (RESIDUAL_BOUND as int)) <= d as int <= 2 * (RESIDUAL_BOUND as int),
            ;
        }
        acc = acc + d * d;
        k = k + 1;
    }
    proof {
        assert(xs@.take(xs@.len() as int) =~= xs@);
        lemma_sq_dev_sum_bound(xs@, m as int, RESIDUAL_BOUND as int);
    }
    acc
}

/// Evaluates one candidate: the impurity of splitting feature `f` at
/// threshold `t`, with the two bucket means.
fn eval_candidate(columns: &Matrix, target: &Vec<i64>, idx: &Vec<usize>, f: usize, t: i64) -> (r: (
    i128,
    i64,
    i64,
))
    requires
        columns.wf(),
        (f as int) < columns.rows@.len(),
        target@.len() == columns.n_samples,
        all_within(target@, RESIDUAL_BOUND as int),
        indices_ok(idx@, columns.n_samples as int),
        0 < idx@.len() <= SAMPLES_BOUND,
        min_sel(columns.rows@[f as int]@, idx@) <= t < max_sel(columns.rows@[f as int]@, idx@),
    ensures
        r.0 as int == impurity_of(columns.rows@[f as int]@, target@, idx@, t),
        r.1 as int == mean(left_sel(columns.rows@[f as int]@, target@, idx@, t)),
        r.2 as int == mean(right_sel(columns.rows@[f as int]@, target@, idx@, t)),
        -RESIDUAL_BOUND <= r.1 <= RESIDUAL_BOUND,
        -RESIDUAL_BOUND <= r.2 <= RESIDUAL_BOUND,
        0 <= r.0,
{
    let ghost c = columns.rows@[f as int]@;
    let col = &columns.rows[f];
    let mut lv: Vec<i64> = Vec::new();
    let mut rv: Vec<i64> = Vec::new();
    let mut k: usize = 0;
    while k < idx.len()
        invariant
            columns.wf(),
            (f as int) < columns.rows@.len(),
            col@ == c,
            c.len() == columns.n_samples,
            target@.len() == columns.n_samples,
            indices_ok(idx@, columns.n_samples as int),
            0 <= k <= idx@.len(),
            lv@ == left_sel(c, target@, idx@.take(k as int), t),
            rv@ == right_sel(c, target@, idx@.take(k as int), t),
        decreases idx@.len() - k,
    {
        proof {
            assert(idx@.take(k + 1).drop_last() =~= idx@.take(k as int));
            assert(idx@.take(k + 1).last() == idx@[k as int]);
        }
        let i = idx[k];
        if col[i] <= t {
            lv.push(target[i]);
        } else {
            rv.push(target[i]);
        }
        k = k + 1;
    }
    proof {
        assert(idx@.take(idx@.len() as int) =~= idx@);
        lemma_left_nonempty(c, target@, idx@, t);
        lemma_right_nonempty(c, target@, idx@, t);
        lemma_sel_within(c, target@, idx@, t, RESIDUAL_BOUND as int);
        lemma_mean_between(lv@, -(RESIDUAL_BOUND as int), RESIDUAL_BOUND as int);
        lemma_mean_between(rv@, -(RESIDUAL_BOUND as int), RESIDUAL_BOUND as int);
    }
    let ml = mean_i64(&lv);
    let mr = mean_i64(&rv);
    let ssl = sq_dev_exec(&lv, ml);
    let ssr = sq_dev_exec(&rv, mr);
    proof {
        assert(ssl as int + ssr as int <= (lv@.len() + rv@.len()) * (4 * (RESIDUAL_BOUND as int)
            * (RESIDUAL_BOUND as int))) by (nonlinear_arith)
            requires
                ssl as int <= lv@.len() * (4 * (RESIDUAL_BOUND as int) * (RESIDUAL_BOUND as int)),
                ssr as int <= rv@.len() * (4 * (RESIDUAL_BOUND as int) * (RESIDUAL_BOUND as int)),
        ;
        assert((lv@.len() + rv@.len()) * (4 * (RESIDUAL_BOUND as int) * (RESIDUAL_BOUND as int))
            < i128::MAX) by (nonlinear_arith)
            requires
                lv@.len() + rv@.len() <= SAMPLES_BOUND,
        ;
    }
    let imp = ssl + ssr;
    (imp, ml, mr)
}


/// Picks, among the drawn candidate thresholds, the feature whose split has
/// the smallest impurity; the first minimal feature wins a tie. This is the
/// deterministic half of fitting: it is exact for whatever thresholds were
/// drawn.
pub fn best_split(
    columns: &Matrix,
    target: &Vec<i64>,
    idx: &Vec<usize>,
    thresholds: &Vec<Option<i64>>,
) -> (r: Option<Split>)
    requires
        columns.wf(),
        thresholds@.len() == columns.rows@.len(),
        target@.len() == columns.n_samples,
        all_within(target@, RESIDUAL_BOUND as int),
        indices_ok(idx@, columns.n_samples as int),
        0 < idx@.len() <= SAMPLES_BOUND,
        forall|f: int|
            0 <= f < thresholds@.len() ==> (#[trigger] thresholds@[f] matches Some(t) ==> min_sel(
                columns.rows@[f]@,
                idx@,
            ) <= t < max_sel(columns.rows@[f]@, idx@)),
    ensures
        (r is Some) <==> exists|f: int|
            0 <= f < thresholds@.len() && (#[trigger] thresholds@[f]) is Some,
        r matches Some(s) ==> {
            &&& fitted_split_ok(columns.vals(), target@, idx@, s) || !columns.bounded(
                VALUE_BOUND as int,
            )
            &&& thresholds@[s.feature as int] == Some(s.threshold)
            &&& first_minimal(columns.vals(), target@, idx@, thresholds@, s)
        },
{
    let ghost cols = columns.vals();
    let mut best: Option<Split> = None;
    let mut f: usize = 0;
    while f < thresholds.len()
        invariant
            columns.wf(),
            cols == columns.vals(),
            thresholds@.len() == columns.rows@.len(),
            target@.len() == columns.n_samples,
            all_within(target@, RESIDUAL_BOUND as int),
            indices_ok(idx@, columns.n_samples as int),
            0 < idx@.len() <= SAMPLES_BOUND,
            0 <= f <= thresholds@.len(),
            forall|g: int|
                0 <= g < thresholds@.len() ==> (#[trigger] thresholds@[g] matches Some(t)
                    ==> min_sel(columns.rows@[g]@, idx@) <= t < max_sel(columns.rows@[g]@, idx@)),
            (best is Some) <==> exists|g: int|
                0 <= g < f && (#[trigger] thresholds@[g]) is Some,
            best matches Some(b) ==> {
                &&& 0 <= (b.feature as int) < f
                &&& thresholds@[b.feature as int] == Some(b.threshold)
                &&& b.impurity as int == impurity_of(cols[b.feature as int], target@, idx@, b.threshold)
                &&& b.value_left as int == mean(left_sel(cols[b.feature as int], target@, idx@, b.threshold))
                &&& b.value_right as int == mean(right_sel(cols[b.feature as int], target@, idx@, b.threshold))
                &&& -RESIDUAL_BOUND <= b.value_left <= RESIDUAL_BOUND
                &&& -RESIDUAL_BOUND <= b.value_right <= RESIDUAL_BOUND
                &&& min_sel(cols[b.feature as int], idx@) <= b.threshold < max_sel(cols[b.feature as int], idx@)
                &&& forall|g: int|
                    0 <= g < f ==> (#[trigger] thresholds@[g] matches Some(t) ==> impurity_of(
                        cols[g],
                        target@,
                        idx@,
                        t,
                    ) >= b.impurity as int)
                &&& forall|g: int|
                    0 <= g < b.feature ==> (#[trigger] thresholds@[g] matches Some(t)
                        ==> impurity_of(cols[g], target@, idx@, t) > b.impurity as int)
            },
        decreases thresholds@.len() - f,
    {
        proof {
            assert(cols[f as int] == columns.rows@[f as int]@);
        }
        match thresholds[f] {
            None => {},
            Some(t) => {
                let (imp, vl, vr) = eval_candidate(columns, target, idx, f, t);
                let replace = match best {
                    None => true,
                    Some(b) => imp < b.impurity,
                };
                if replace {
                    best = Some(
                        Split {
                            feature: f,
                            threshold: t,
                            impurity: imp,
                            value_left: vl,
                            value_right: vr,
                        },
                    );
                }
            },
        }
        f = f + 1;
    }
    proof {
        if let Some(b) = best {
            if columns.bounded(VALUE_BOUND as int) {
                lemma_min_max_sel_within(cols[b.feature as int], idx@, VALUE_BOUND as int);
            }
        }
    }
    best
}

/// Sample indices routed to the left and right side of a fitted split.
#[derive(Default)]
pub struct SplitIndices {
    /// Samples whose feature value is at most the threshold.
    pub left: Vec<usize>,
    /// Samples whose feature value exceeds the threshold.
    pub right: Vec<usize>,
}

/// The identity index list `0, 1, .., n-1`.
pub open spec fn identity_indices(n: nat) -> Seq<usize> {
    Seq::new(n, |k: int| k as usize)
}

/// Builds the identity index list.
pub fn identity_vec(n: usize) -> (r: Vec<usize>)
    ensures
        r@ == identity_indices(n as nat),
        indices_ok(r@, n as int),
        r@.len() == n,
{
    let mut r: Vec<usize> = Vec::new();
    let mut k: usize = 0;
    while k < n
        invariant
            0 <= k <= n,
            r@.len() == k,
            forall|i: int| 0 <= i < k ==> #[trigger] r@[i] == i as usize,
        decreases n - k,
    {
        r.push(k);
        k = k + 1;
    }
    proof {
        assert(r@ =~= identity_indices(n as nat));
    }
    r
}

/// The effective index list of an optional subset: the subset itself, or all
/// samples.
pub open spec fn effective_indices(indices: Option<Seq<usize>>, n: nat) -> Seq<usize> {
    match indices {
        Some(v) => v,
        None => identity_indices(n),
    }
}

/// A split rule whose threshold is drawn at random between each feature's
/// selected extremes. `split_info` is `None` until a fit succeeds.
pub struct RandomSplitRule {
    /// The fitted split, or `None` when unfitted or degenerate.
    pub split_info: Option<Split>,
}

impl RandomSplitRule {
    /// An unfitted rule.
    pub fn new() -> (r: Self)
        ensures
            r.split_info is None,
    {
        RandomSplitRule { split_info: None }
    }

    /// The fitted split, if any.
    pub fn get_split(&self) -> (r: Option<Split>)
        ensures
            r == self.split_info,
    {
        self.split_info
    }

    /// Fits on the samples listed in `idx`: draws one candidate threshold per
    /// splittable feature and keeps the first feature of minimal impurity
    /// (the exact selection contract is `best_split`'s). Fails with
    /// `DegenerateSplit`, leaving the rule unfitted, exactly when no feature
    /// varies over the selection.
    pub fn fit_indexed(
        &mut self,
        columns: &Matrix,
        target: &Vec<i64>,
        idx: &Vec<usize>,
        rng: &mut RandomSource,
    ) -> (r: Result<(), ModelError>)
        requires
            columns.wf(),
            columns.bounded(VALUE_BOUND as int),
            all_within(target@, RESIDUAL_BOUND as int),
            target@.len() == columns.n_samples,
            indices_ok(idx@, columns.n_samples as int),
            idx@.len() <= SAMPLES_BOUND,
        ensures
            (r is Ok) <==> (idx@.len() > 0 && splittable(columns.vals(), idx@)),
            r matches Err(e) ==> e == ModelError::DegenerateSplit && final(self).split_info
                is None,
            r is Ok ==> (final(self).split_info matches Some(s) && fitted_split_ok(
                columns.vals(),
                target@,
                idx@,
                s,
            ) && chosen_first_minimal(columns.vals(), target@, idx@, s)),
    {
        let ghost cols = columns.vals();
        if idx.len() == 0 {
            self.split_info = None;
            return Err(ModelError::DegenerateSplit);
        }
        let mut thresholds: Vec<Option<i64>> = Vec::new();
        let mut f: usize = 0;
        while f < columns.rows.len()
            invariant
                columns.wf(),
                cols == columns.vals(),
                columns.bounded(VALUE_BOUND as int),
                indices_ok(idx@, columns.n_samples as int),
                0 < idx@.len() <= SAMPLES_BOUND,
                0 <= f <= columns.rows@.len(),
                thresholds@.len() == f,
                forall|g: int|
                    0 <= g < f ==> ((#[trigger] thresholds@[g]) is Some <==> min_sel(
                        cols[g],
                        idx@,
                    ) < max_sel(cols[g], idx@)),
                forall|g: int|
                    0 <= g < f ==> (#[trigger] thresholds@[g] matches Some(t) ==> min_sel(
                        cols[g],
                        idx@,
                    ) <= t < max_sel(cols[g], idx@)),
            decreases columns.rows@.len() - f,
        {
            proof {
                assert(cols[f as int] == columns.rows@[f as int]@);
            }
            let (mn, mx) = min_max_sel_exec(&columns.rows[f], idx);
            if mn < mx {
                let t = rng.next_in(mn, mx);
                thresholds.push(Some(t));
            } else {
                thresholds.push(None);
            }
            f = f + 1;
        }
        let best = best_split(columns, target, idx, &thresholds);
        proof {
            if best is Some {
                let g = choose|g: int|
                    0 <= g < thresholds@.len() && (#[trigger] thresholds@[g]) is Some;
                assert(min_sel(cols[g], idx@) < max_sel(cols[g], idx@));
                assert(splittable(cols, idx@));
            }
            if splittable(cols, idx@) {
                let g = choose|g: int|
                    0 <= g < cols.len() && min_sel(#[trigger] cols[g], idx@) < max_sel(
                        cols[g],
                        idx@,
                    );
                assert((thresholds@[g]) is Some);
                assert(exists|h: int|
                    0 <= h < thresholds@.len() && (#[trigger] thresholds@[h]) is Some);
            }
        }
        match best {
            Some(s) => {
                proof {
                    assert(thresholds@.len() == cols.len());
                    assert(first_minimal(cols, target@, idx@, thresholds@, s));
                    assert(chosen_first_minimal(cols, target@, idx@, s));
                }
                self.split_info = Some(s);
                Ok(())
            },
            None => {
                self.split_info = None;
                Err(ModelError::DegenerateSplit)
            },
        }
    }

    /// Fits on an optional sample subset; `None` means every sample.
    pub fn fit_by_indices(
        &mut self,
        columns: &Matrix,
        target: &Vec<i64>,
        indices: Option<&Vec<usize>>,
        rng: &mut RandomSource,
    ) -> (r: Result<(), ModelError>)
        requires
            columns.wf(),
            columns.bounded(VALUE_BOUND as int),
            all_within(target@, RESIDUAL_BOUND as int),
            target@.len() == columns.n_samples,
            columns.n_samples <= SAMPLES_BOUND,
            match indices {
                Some(v) => indices_ok(v@, columns.n_samples as int) && v@.len() <= SAMPLES_BOUND,
                None => true,
            },
        ensures
            ({
                let eidx = effective_indices(
                    match indices {
                        Some(v) => Some(v@),
                        None => None,
                    },
                    columns.n_samples as nat,
                );
                &&& (r is Ok) <==> (eidx.len() > 0 && splittable(columns.vals(), eidx))
                &&& (r matches Err(e) ==> e == ModelError::DegenerateSplit && final(self).split_info is None)
                &&& (r is Ok ==> (final(self).split_info matches Some(s) && fitted_split_ok(
                    columns.vals(),
                    target@,
                    eidx,
                    s,
                ) && chosen_first_minimal(columns.vals(), target@, eidx, s)))
            }),
    {
        match indices {
            Some(v) => self.fit_indexed(columns, target, v, rng),
            None => {
                let all = identity_vec(columns.n_samples);
                self.fit_indexed(columns, target, &all, rng)
            },
        }
    }

    /// Fits on every sample, failing fast with `DimensionMismatch` on a
    /// sample-count disagreement; otherwise exactly as `fit_by_indices` with
    /// no subset.
    pub fn fit(
        &mut self,
        columns: &Matrix,
        target: &Vec<i64>,
        rng: &mut RandomSource,
    ) -> (r: Result<(), ModelError>)
        requires
            columns.wf(),
            columns.bounded(VALUE_BOUND as int),
            all_within(target@, RESIDUAL_BOUND as int),
            columns.n_samples <= SAMPLES_BOUND,
        ensures
            target@.len() != columns.n_samples ==> (r matches Err(e) && e
                == ModelError::DimensionMismatch && final(self).split_info is None),
            target@.len() == columns.n_samples ==> {
                &&& (r is Ok) <==> (columns.n_samples > 0 && splittable(
                    columns.vals(),
                    identity_indices(columns.n_samples as nat),
                ))
                &&& (r is Ok ==> (final(self).split_info matches Some(s) && fitted_split_ok(
                    columns.vals(),
                    target@,
                    identity_indices(columns.n_samples as nat),
                    s,
                ) && chosen_first_minimal(
                    columns.vals(),
                    target@,
                    identity_indices(columns.n_samples as nat),
                    s,
                )))
                &&& (r is Err ==> (r matches Err(e) && e == ModelError::DegenerateSplit
                    && final(self).split_info is None))
            },
    {
        if target.len() != columns.n_samples {
            self.split_info = None;
            return Err(ModelError::DimensionMismatch);
        }
        self.fit_by_indices(columns, target, None, rng)
    }

    /// Splits the selected sample indices by the fitted threshold; the rule
    /// must be fitted and its feature must exist in `columns`.
    pub fn split_indices(&self, columns: &Matrix, indices: Option<&Vec<usize>>) -> (r:
        SplitIndices)
        requires
            columns.wf(),
            self.split_info matches Some(s) && (s.feature as int) < columns.rows@.len(),
            match indices {
                Some(v) => indices_ok(v@, columns.n_samples as int),
                None => true,
            },
        ensures
            ({
                let s = self.split_info->0;
                let eidx = effective_indices(
                    match indices {
                        Some(v) => Some(v@),
                        None => None,
                    },
                    columns.n_samples as nat,
                );
                &&& r.left@ == left_idx(columns.rows@[s.feature as int]@, eidx, s.threshold)
                &&& r.right@ == right_idx(columns.rows@[s.feature as int]@, eidx, s.threshold)
            }),
    {
        let s = match &self.split_info {
            Some(s) => *s,
            None => unreached(),
        };
        match indices {
            Some(v) => split_indices_of(columns, v, s),
            None => {
                let all = identity_vec(columns.n_samples);
                split_indices_of(columns, &all, s)
            },
        }
    }

    /// Predicts one value per sample: the fitted split's left value where the
    /// feature is at most the threshold, the right value where it exceeds it.
    pub fn predict(&self, columns: &Matrix) -> (r: Result<Vec<i64>, ModelError>)
        requires
            columns.wf(),
        ensures
            self.split_info is None ==> (r matches Err(e) && e == ModelError::UnconfiguredModel),
            self.split_info matches Some(s) ==> {
                &&& (s.feature as int) >= columns.rows@.len() ==> (r matches Err(e) && e
                    == ModelError::DimensionMismatch)
                &&& (s.feature as int) < columns.rows@.len() ==> (r matches Ok(v) && v@.len()
                    == columns.n_samples && (forall|j: int|
                    0 <= j < v@.len() ==> #[trigger] v@[j] == split_value(
                        s,
                        columns.rows@[s.feature as int]@[j],
                    )))
            },
    {
        let s = match &self.split_info {
            Some(s) => *s,
            None => {
                return Err(ModelError::UnconfiguredModel);
            },
        };
        if s.feature >= columns.rows.len() {
            return Err(ModelError::DimensionMismatch);
        }
        let col = &columns.rows[s.feature];
        let mut out: Vec<i64> = Vec::new();
        let mut j: usize = 0;
        while j < col.len()
            invariant
                columns.wf(),
                (s.feature as int) < columns.rows@.len(),
                col@ == columns.rows@[s.feature as int]@,
                0 <= j <= col@.len(),
                out@.len() == j,
                forall|i: int|
                    0 <= i < j ==> #[trigger] out@[i] == split_value(s, col@[i]),
            decreases col@.len() - j,
        {
            if col[j] > s.threshold {
                out.push(s.value_right);
            } else {
                out.push(s.value_left);
            }
            j = j + 1;
        }
        Ok(out)
    }
}

/// Splits an explicit index list by a fitted split's threshold.
fn split_indices_of(columns: &Matrix, idx: &Vec<usize>, s: Split) -> (r: SplitIndices)
    requires
        columns.wf(),
        (s.feature as int) < columns.rows@.len(),
        indices_ok(idx@, columns.n_samples as int),
    ensures
        r.left@ == left_idx(columns.rows@[s.feature as int]@, idx@, s.threshold),
        r.right@ == right_idx(columns.rows@[s.feature as int]@, idx@, s.threshold),
{
    let col = &columns.rows[s.feature];
    let mut left: Vec<usize> = Vec::new();
    let mut right: Vec<usize> = Vec::new();
    let mut k: usize = 0;
    while k < idx.len()
        invariant
            columns.wf(),
            (s.feature as int) < columns.rows@.len(),
            col@ == columns.rows@[s.feature as int]@,
            indices_ok(idx@, columns.n_samples as int),
            0 <= k <= idx@.len(),
            left@ == left_idx(col@, idx@.take(k as int), s.threshold),
            right@ == right_idx(col@, idx@.take(k as int), s.threshold),
        decreases idx@.len() - k,
    {
        proof {
            assert(idx@.take(k + 1).drop_last() =~= idx@.take(k as int));
            assert(idx@.take(k + 1).last() == idx@[k as int]);
        }
        let i = idx[k];
        if col[i] <= s.threshold {
            left.push(i);
        } else {
            right.push(i);
        }
        k = k + 1;
    }
    proof {
        assert(idx@.take(idx@.len() as int) =~= idx@);
    }
    SplitIndices { left, right }
}

} // verus!
