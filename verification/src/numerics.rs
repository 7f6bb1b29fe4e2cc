//! Integer arithmetic the estimators are specified with: truncating division,
//! sums, means, squared deviations and mean squared error.
//!
//! Every quantity is a plain `i64` tick value; intermediate sums live in
//! `i128`, and the bounds under which they provably fit are the crate-level
//! constants `VALUE_BOUND`, `RESIDUAL_BOUND` and `SAMPLES_BOUND`.

use vstd::prelude::*;
use vstd::arithmetic::div_mod::{
    lemma_div_is_ordered, lemma_div_multiples_vanish, lemma_div_pos_is_pos,
};
use vstd::arithmetic::mul::lemma_mul_inequality;

verus! {

/// Division that truncates toward zero, as the executable `/` on signed
/// integers does; `b` must be positive.
pub open spec fn div_trunc(a: int, b: int) -> int {
    if a >= 0 {
        a / b
    } else {
        -((-a) / b)
    }
}

/// Sum of a sequence of tick values, as an unbounded integer.
pub open spec fn sum(s: Seq<i64>) -> int
    decreases s.len(),
{
    if s.len() == 0 {
        0
    } else {
        sum(s.drop_last()) + s.last()
    }
}

/// Mean of a nonempty sequence: the truncated quotient of its sum by its
/// length.
pub open spec fn mean(s: Seq<i64>) -> int {
    div_trunc(sum(s), s.len() as int)
}

/// Sum of squared deviations of a sequence from a center `m`.
pub open spec fn sq_dev_sum(s: Seq<i64>, m: int) -> int
    decreases s.len(),
{
    if s.len() == 0 {
        0
    } else {
        sq_dev_sum(s.drop_last(), m) + (s.last() - m) * (s.last() - m)
    }
}

/// Every element of `s` lies in `[lo, hi]`.
pub open spec fn all_between(s: Seq<i64>, lo: int, hi: int) -> bool {
    forall|i: int| 0 <= i < s.len() ==> lo <= #[trigger] s[i] <= hi
}

/// Every element of `s` has magnitude at most `b`.
pub open spec fn all_within(s: Seq<i64>, b: int) -> bool {
    all_between(s, -b, b)
}

/// Sum of squared differences of two equally long sequences.
pub open spec fn sq_err_sum(p: Seq<i64>, t: Seq<i64>) -> int
    decreases p.len(),
{
    if p.len() == 0 {
        0
    } else {
        sq_err_sum(p.drop_last(), t.drop_last()) + (p.last() - t.last()) * (p.last() - t.last())
    }
}

/// Mean squared error of predictions `p` against targets `t`: the truncated
/// mean of the squared differences.
pub open spec fn mse(p: Seq<i64>, t: Seq<i64>) -> int {
    div_trunc(sq_err_sum(p, t), p.len() as int)
}

/// A sum of values from `[lo, hi]` lies in `[len * lo, len * hi]`.
pub proof fn lemma_sum_between(s: Seq<i64>, lo: int, hi: int)
    requires
        all_between(s, lo, hi),
    ensures
        s.len() * lo <= sum(s) <= s.len() * hi,
    decreases s.len(),
{
    if s.len() == 0 {
    } else {
        assert(all_between(s.drop_last(), lo, hi));
        lemma_sum_between(s.drop_last(), lo, hi);
        assert((s.len() - 1) * lo + lo == s.len() * lo) by (nonlinear_arith);
        assert((s.len() - 1) * hi + hi == s.len() * hi) by (nonlinear_arith);
        assert(lo <= s.last() <= hi);
    }
}

/// Truncated division by a positive divisor keeps a value inside a range
/// around zero that its numerator respects `n`-fold.
pub proof fn lemma_div_trunc_between(a: int, n: int, lo: int, hi: int)
    requires
        n >= 1,
        lo <= 0 <= hi,
        n * lo <= a <= n * hi,
    ensures
        lo <= div_trunc(a, n) <= hi,
{
    if a >= 0 {
        lemma_div_is_ordered(a, n * hi, n);
        lemma_div_multiples_vanish(hi, n);
        lemma_div_pos_is_pos(a, n);
    } else {
        assert(n * (-lo) == -(n * lo)) by (nonlinear_arith);
        lemma_div_is_ordered(-a, n * (-lo), n);
        lemma_div_multiples_vanish(-lo, n);
        lemma_div_pos_is_pos(-a, n);
    }
}

/// The mean of a nonempty sequence of values from `[lo, hi]` lies in
/// `[lo, hi]` itself, provided the range straddles zero.
pub proof fn lemma_mean_between(s: Seq<i64>, lo: int, hi: int)
    requires
        s.len() > 0,
        lo <= 0 <= hi,
        all_between(s, lo, hi),
    ensures
        lo <= mean(s) <= hi,
{
    lemma_sum_between(s, lo, hi);
    lemma_div_trunc_between(sum(s), s.len() as int, lo, hi);
}

/// Squared deviations are nonnegative, and bounded once the values and the
/// center are.
pub proof fn lemma_sq_dev_sum_bound(s: Seq<i64>, m: int, b: int)
    requires
        all_within(s, b),
        -b <= m <= b,
        b >= 0,
    ensures
        0 <= sq_dev_sum(s, m) <= s.len() * (4 * b * b),
    decreases s.len(),
{
    if s.len() == 0 {
    } else {
        assert(all_within(s.drop_last(), b));
        lemma_sq_dev_sum_bound(s.drop_last(), m, b);
        let d = s.last() - m;
        assert(-(2 * b) <= d <= 2 * b);
        assert(0 <= d * d <= 4 * b * b) by (nonlinear_arith)
            requires
                -(2 * b) <= d <= 2 * b,
        ;
        assert(s.drop_last().len() * (4 * b * b) + 4 * b * b == s.len() * (4 * b * b))
            by (nonlinear_arith)
            requires
                s.len() >= 1,
                s.drop_last().len() == s.len() - 1,
        ;
    }
}

/// Squared-error sums are nonnegative.
pub proof fn lemma_sq_err_sum_nonneg(p: Seq<i64>, t: Seq<i64>)
    requires
        p.len() == t.len(),
    ensures
        sq_err_sum(p, t) >= 0,
    decreases p.len(),
{
    if p.len() == 0 {
    } else {
        lemma_sq_err_sum_nonneg(p.drop_last(), t.drop_last());
        let d = p.last() - t.last();
        assert(d * d >= 0) by (nonlinear_arith);
    }
}

/// A prefix of a squared-error sum never exceeds the whole: the terms are
/// nonnegative.
pub proof fn lemma_sq_err_sum_prefix(p: Seq<i64>, t: Seq<i64>, k: int)
    requires
        p.len() == t.len(),
        0 <= k <= p.len(),
    ensures
        0 <= sq_err_sum(p.take(k), t.take(k)) <= sq_err_sum(p, t),
    decreases p.len(),
{
    lemma_sq_err_sum_nonneg(p.take(k), t.take(k));
    if k == p.len() {
        assert(p.take(k) =~= p);
        assert(t.take(k) =~= t);
    } else {
        assert(p.take(k) =~= p.drop_last().take(k));
        assert(t.take(k) =~= t.drop_last().take(k));
        lemma_sq_err_sum_prefix(p.drop_last(), t.drop_last(), k);
        let d = p.last() - t.last();
        assert(d * d >= 0) by (nonlinear_arith);
    }
}

/// Whether every element's magnitude is at most `b`.
pub fn within_bound(xs: &Vec<i64>, b: i64) -> (r: bool)
    requires
        b >= 0,
    ensures
        r == all_within(xs@, b as int),
{
    let mut k: usize = 0;
    while k < xs.len()
        invariant
            b >= 0,
            0 <= k <= xs@.len(),
            forall|i: int| 0 <= i < k ==> -b <= #[trigger] xs@[i] <= b,
        decreases xs@.len() - k,
    {
        if xs[k] < -b || xs[k] > b {
            return false;
        }
        k = k + 1;
    }
    true
}

/// Computes the exact sum of a slice of ticks; an `i128` always holds it.
pub fn sum_i64(xs: &Vec<i64>) -> (r: i128)
    ensures
        r as int == sum(xs@),
{
    let mut acc: i128 = 0;
    let mut i: usize = 0;
    while i < xs.len()
        invariant
            0 <= i <= xs.len(),
            acc as int == sum(xs@.take(i as int)),
        decreases xs.len() - i,
    {
        proof {
            assert(xs@.take(i + 1).drop_last() =~= xs@.take(i as int));
            assert(all_between(xs@.take(i + 1), i64::MIN as int, i64::MAX as int));
            lemma_sum_between(xs@.take(i + 1), i64::MIN as int, i64::MAX as int);
            assert((i + 1) * (i64::MIN as int) > i128::MIN) by (nonlinear_arith)
                requires
                    i + 1 <= 0xFFFF_FFFF_FFFF_FFFFu64,
            ;
            assert((i + 1) * (i64::MAX as int) < i128::MAX) by (nonlinear_arith)
                requires
                    i + 1 <= 0xFFFF_FFFF_FFFF_FFFFu64,
            ;
        }
        acc = acc + xs[i] as i128;
        i = i + 1;
    }
    proof {
        assert(xs@.take(xs@.len() as int) =~= xs@);
    }
    acc
}

/// Truncating division of an `i128` by a positive divisor.
pub fn div_trunc_i128(a: i128, b: i128) -> (r: i128)
    requires
        b >= 1,
    ensures
        r as int == div_trunc(a as int, b as int),
{
    proof {
        let m = if a >= 0 { a as int } else { -(a as int) };
        lemma_mul_inequality(1, b as int, m);
        assert(1 * m == m) by (nonlinear_arith);
        assert((b as int) * (-m) == -((b as int) * m)) by (nonlinear_arith);
        lemma_div_trunc_between(a as int, b as int, -m, m);
    }
    a.checked_div(b).unwrap()
}

/// Exact mean of a nonempty slice of ticks; always fits an `i64`.
pub fn mean_i64(xs: &Vec<i64>) -> (r: i64)
    requires
        xs@.len() > 0,
    ensures
        r as int == mean(xs@),
        i64::MIN <= mean(xs@) <= i64::MAX,
{
    let s = sum_i64(xs);
    proof {
        assert(all_between(xs@, i64::MIN as int, i64::MAX as int));
        lemma_mean_between(xs@, i64::MIN as int, i64::MAX as int);
    }
    let m = div_trunc_i128(s, xs.len() as i128);
    m as i64
}

} // verus!
