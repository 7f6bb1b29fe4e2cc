//! Construction traits and the k-fold cross-validation evaluator.
//!
//! `eval_est` fits an estimator on a training window and scores it by mean
//! squared error on a validation window; `eval_est_cv` sums those scores over
//! every qualifying (fold, validation-side) pair. The sum is unweighted, so
//! scores compare only across configurations evaluated with one fold count.

use vstd::prelude::*;
use vstd::arithmetic::div_mod::lemma_fundamental_div_mod;
use vstd::arithmetic::mul::lemma_mul_inequality;
use crate::array::{slice_vec, Matrix};
use crate::boosting::GradientBoostingImpl;
use crate::error::ModelError;
use crate::numerics::{
    all_within, lemma_sq_err_sum_nonneg, lemma_sq_err_sum_prefix, mse, sq_err_sum,
};
use crate::random::RandomSource;
use crate::{SAMPLES_BOUND, VALUE_BOUND};

verus! {

/// A type constructible from one argument value.
pub trait ConstructibleWithArg {
    /// The constructor argument.
    type Arg;

    /// Builds a fresh, unfitted value from the argument.
    fn new(arg: Self::Arg) -> Self where Self: Sized;
}

/// A type constructible from one copyable argument value, so that many
/// identically configured instances can be made from the same argument.
pub trait ConstructibleWithCopyArg {
    /// The constructor argument; copyable.
    type Arg: Copy;

    /// Builds a fresh, unfitted value from the argument.
    fn new(arg: Self::Arg) -> Self where Self: Sized;
}

impl ConstructibleWithCopyArg for crate::tree::DecisionTreeImpl {
    type Arg = crate::tree::TreeParameters;

    fn new(arg: crate::tree::TreeParameters) -> Self {
        crate::tree::DecisionTreeImpl::new(arg)
    }
}

impl ConstructibleWithCopyArg for GradientBoostingImpl {
    type Arg = crate::boosting::GradientBoostingParameters;

    fn new(arg: crate::boosting::GradientBoostingParameters) -> Self {
        GradientBoostingImpl::new(arg)
    }
}

/// An estimator's predictions over `n` samples, as tick values; faithful
/// where every prediction is in range.
pub open spec fn gbm_preds(m: GradientBoostingImpl, cols: Seq<Seq<i64>>, n: nat) -> Seq<i64> {
    Seq::new(n, |j: int| m.predict_val(cols, j) as i64)
}

/// `n` copies of one tick value: what a bias-only model predicts.
pub open spec fn const_preds(n: nat, c: int) -> Seq<i64> {
    Seq::new(n, |j: int| c as i64)
}

/// The mean squared error of predictions against a target. Succeeds exactly
/// when the squared-error sum and the resulting mean are representable.
pub fn mean_sq_err(preds: &Vec<i64>, target: &Vec<i64>) -> (r: Result<i64, ModelError>)
    requires
        preds@.len() == target@.len(),
        preds@.len() > 0,
    ensures
        (r is Ok) <==> (sq_err_sum(preds@, target@) <= i128::MAX && mse(preds@, target@)
            <= i64::MAX),
        r matches Ok(v) ==> v as int == mse(preds@, target@) && v >= 0,
        r is Err ==> (r matches Err(e) && e == ModelError::NumericOverflow),
{
    let n = preds.len();
    let mut acc: i128 = 0;
    let mut j: usize = 0;
    while j < n
        invariant
            preds@.len() == target@.len(),
            n == preds@.len() > 0,
            0 <= j <= n,
            acc as int == sq_err_sum(preds@.take(j as int), target@.take(j as int)),
            0 <= acc,
        decreases n - j,
    {
        proof {
            assert(preds@.take(j + 1).drop_last() =~= preds@.take(j as int));
            assert(target@.take(j + 1).drop_last() =~= target@.take(j as int));
        }
        let d: i128 = preds[j] as i128 - target[j] as i128;
        let sq = match d.checked_mul(d) {
            Some(sq) => sq,
            None => {
                proof {
                    assert(d * d > i128::MAX) by (nonlinear_arith)
                        requires
                            !(i128::MIN <= d * d <= i128::MAX),
                            -0x2_0000_0000_0000_0000 <= d <= 0x2_0000_0000_0000_0000,
                    ;
                    lemma_sq_err_sum_prefix(preds@, target@, j + 1);
                }
                return Err(ModelError::NumericOverflow);
            },
        };
        proof {
            assert(sq >= 0) by (nonlinear_arith)
                requires
                    sq == d * d,
            ;
        }
        let nacc = match acc.checked_add(sq) {
            Some(v) => v,
            None => {
                proof {
                    lemma_sq_err_sum_prefix(preds@, target@, j + 1);
                }
                return Err(ModelError::NumericOverflow);
            },
        };
        acc = nacc;
        j = j + 1;
    }
    proof {
        assert(preds@.take(n as int) =~= preds@);
        assert(target@.take(n as int) =~= target@);
        lemma_sq_err_sum_nonneg(preds@, target@);
    }
    let m = crate::numerics::div_trunc_i128(acc, n as i128);
    proof {
        assert((n as int) * 0 == 0) by (nonlinear_arith);
        assert(acc as int <= (n as int) * (acc as int)) by (nonlinear_arith)
            requires
                n >= 1,
                acc >= 0,
        ;
        crate::numerics::lemma_div_trunc_between(acc as int, n as int, 0, acc as int);
    }
    if m > i64::MAX as i128 {
        return Err(ModelError::NumericOverflow);
    }
    Ok(m as i64)
}

/// Fits the estimator on the training window and scores it on the validation
/// window: the mean squared error of the freshly fitted model's predictions.
pub fn eval_est(
    est: &mut GradientBoostingImpl,
    train_columns: &Matrix,
    train_target: &Vec<i64>,
    val_columns: &Matrix,
    val_target: &Vec<i64>,
    rng: &mut RandomSource,
) -> (r: Result<i64, ModelError>)
    requires
        train_columns.wf(),
        train_columns.bounded(VALUE_BOUND as int),
        all_within(train_target@, VALUE_BOUND as int),
        train_target@.len() == train_columns.n_samples,
        train_columns.n_samples <= SAMPLES_BOUND,
        val_columns.wf(),
        val_target@.len() == val_columns.n_samples,
        val_columns.n_samples > 0,
        val_columns.rows@.len() == train_columns.rows@.len(),
        old(est).params.wf(),
    ensures
        final(est).params == old(est).params,
        r matches Ok(v) ==> {
            &&& v >= 0
            &&& final(est).wf()
            &&& final(est).fitted
            &&& v as int == mse(
                gbm_preds(*final(est), val_columns.vals(), val_columns.n_samples as nat),
                val_target@,
            )
        },
        r is Err ==> (r matches Err(e) && e == ModelError::NumericOverflow),
        old(est).params.n_estimators == 0 ==> {
            let preds0 = const_preds(val_columns.n_samples as nat, crate::boosting::bias_of(
                train_target@,
            ));
            (r is Ok) <==> (sq_err_sum(preds0, val_target@) <= i128::MAX && mse(
                preds0,
                val_target@,
            ) <= i64::MAX)
        },
{
    let ghost bias0 = crate::boosting::bias_of(train_target@);
    let ghost preds0 = const_preds(val_columns.n_samples as nat, bias0);
    match est.fit(train_columns, train_target, rng) {
        Ok(()) => {},
        Err(_) => {
            return Err(ModelError::NumericOverflow);
        },
    }
    let preds = match est.predict(val_columns) {
        Ok(p) => p,
        Err(_) => {
            proof {
                if est.params.n_estimators == 0 {
                    assert forall|j: int|
                        0 <= j < val_columns.n_samples implies i64::MIN
                        <= #[trigger] est.predict_val(val_columns.vals(), j) <= i64::MAX by {
                        est.lemma_bias_only_predict(val_columns.vals(), j);
                    }
                }
            }
            return Err(ModelError::NumericOverflow);
        },
    };
    proof {
        assert(preds@ =~= gbm_preds(*est, val_columns.vals(), val_columns.n_samples as nat));
        if est.params.n_estimators == 0 {
            assert forall|j: int| 0 <= j < preds@.len() implies #[trigger] preds@[j]
                == preds0[j] by {
                est.lemma_bias_only_predict(val_columns.vals(), j);
            }
            assert(preds@ =~= preds0);
        }
    }
    mean_sq_err(&preds, val_target)
}

/// Scores the estimator with k-fold cross-validation: for each fold window,
/// the estimator is refitted in place on the window and evaluated against the
/// prefix before it (except for the first fold) and the suffix after it
/// (except for the last); the score is the unweighted sum of those mean
/// squared errors. With one fold there is no qualifying pair and the score is
/// zero.
pub fn eval_est_cv(
    est: &mut GradientBoostingImpl,
    cv: u8,
    columns: &Matrix,
    target: &Vec<i64>,
    rng: &mut RandomSource,
) -> (r: Result<i64, ModelError>)
    requires
        columns.wf(),
        columns.bounded(VALUE_BOUND as int),
        all_within(target@, VALUE_BOUND as int),
        target@.len() == columns.n_samples,
        columns.n_samples <= SAMPLES_BOUND,
        cv >= 1,
        columns.n_samples >= cv,
        old(est).params.wf(),
    ensures
        final(est).params == old(est).params,
        cv == 1 ==> (r matches Ok(v) && v == 0),
        cv == 1 ==> *final(est) == *old(est),
        (r is Ok && cv >= 2) ==> final(est).fitted && final(est).wf(),
        r matches Ok(v) ==> v >= 0,
        r is Err ==> (r matches Err(e) && e == ModelError::NumericOverflow),
{
    let n: usize = target.len();
    let fold_size: usize = n / (cv as usize);
    proof {
        lemma_fundamental_div_mod(n as int, cv as int);
        assert((n as int) % (cv as int) >= 0);
        assert(fold_size >= 1) by {
            assert((cv as int) * ((n as int) / (cv as int)) == n - (n as int) % (cv as int));
            if fold_size == 0 {
                assert((cv as int) * 0 == 0) by (nonlinear_arith);
            }
        }
    }
    let mut res: i128 = 0;
    let mut i: u8 = 0;
    while i < cv
        invariant
            columns.wf(),
            columns.bounded(VALUE_BOUND as int),
            all_within(target@, VALUE_BOUND as int),
            target@.len() == columns.n_samples,
            columns.n_samples <= SAMPLES_BOUND,
            cv >= 1,
            n == columns.n_samples,
            n >= cv,
            fold_size == (n as int) / (cv as int),
            fold_size >= 1,
            est.params == old(est).params,
            est.params.wf(),
            0 <= i <= cv,
            0 <= res,
            res <= 2 * (i as int) * 0x7FFF_FFFF_FFFF_FFFF,
            cv == 1 ==> res == 0,
            cv == 1 ==> *est == *old(est),
            i >= 2 ==> est.fitted && est.wf(),
        decreases cv - i,
    {
        proof {
            lemma_mul_inequality(i as int + 1, cv as int, fold_size as int);
            lemma_mul_inequality(i as int, cv as int, fold_size as int);
            lemma_fundamental_div_mod(n as int, cv as int);
            assert((n as int) % (cv as int) >= 0);
            assert((cv as int) * (fold_size as int) <= n);
            assert((cv as int) * (fold_size as int) == (fold_size as int) * (cv as int))
                by (nonlinear_arith);
            assert((i as int) * (fold_size as int) == (fold_size as int) * (i as int))
                by (nonlinear_arith);
            assert((i as int + 1) * (fold_size as int) == (fold_size as int) * (i as int + 1))
                by (nonlinear_arith);
            assert((fold_size as int) * (i as int) < (fold_size as int) * (i as int + 1))
                by (nonlinear_arith)
                requires
                    fold_size >= 1,
            ;
        }
        let from: usize = fold_size * (i as usize);
        let to_raw: usize = fold_size * ((i as usize) + 1);
        let to: usize = if to_raw < n {
            to_raw
        } else {
            n
        };
        let fold_columns = columns.slice_samples(from, to);
        let fold_target = slice_vec(target, from, to);
        if i > 0 {
            proof {
                assert((fold_size as int) * 1 <= (fold_size as int) * (i as int))
                    by (nonlinear_arith)
                    requires
                        1 <= i as int,
                        fold_size >= 1,
                ;
                assert((fold_size as int) * 1 == fold_size as int) by (nonlinear_arith);
            }
            let val_columns = columns.slice_samples(0, from);
            let val_target = slice_vec(target, 0, from);
            let s = match eval_est(est, &fold_columns, &fold_target, &val_columns, &val_target, rng)
            {
                Ok(s) => s,
                Err(e) => {
                    return Err(e);
                },
            };
            res = res + s as i128;
        }
        if i < cv - 1 {
            proof {
                lemma_mul_inequality(i as int + 2, cv as int, fold_size as int);
                assert((i as int + 2) * (fold_size as int) == (fold_size as int) * (i as int + 1)
                    + fold_size as int) by (nonlinear_arith);
            }
            let val_columns = columns.slice_samples(to, n);
            let val_target = slice_vec(target, to, n);
            let s = match eval_est(est, &fold_columns, &fold_target, &val_columns, &val_target, rng)
            {
                Ok(s) => s,
                Err(e) => {
                    return Err(e);
                },
            };
            res = res + s as i128;
        }
        i = i + 1;
    }
    if res > i64::MAX as i128 {
        return Err(ModelError::NumericOverflow);
    }
    Ok(res as i64)
}

} // verus!
