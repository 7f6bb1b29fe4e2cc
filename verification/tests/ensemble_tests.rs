use woods::array::Matrix;
use woods::boosting::GradientBoostingParameters;
use woods::ensemble::AverageEnsemble;
use woods::error::ModelError;
use woods::estimator::{eval_est, eval_est_cv};
use woods::boosting::GradientBoostingImpl;
use woods::random::RandomSource;
use woods::tree::TreeParameters;

fn matrix(rows: Vec<Vec<i64>>, n_samples: usize) -> Matrix {
    let mut m = Matrix::new(n_samples);
    for row in rows {
        m.push_row(row);
    }
    m
}

fn small_params(rounds: u32) -> GradientBoostingParameters {
    GradientBoostingParameters::new(TreeParameters::new(Some(2), None), Some(rounds), None)
}

#[test]
fn ensemble_prediction_is_the_member_mean() {
    // The combined prediction equals the elementwise truncated mean of the
    // members' own predictions, in member order.
    let columns = matrix(vec![vec![0, 1, 2, 3, 4, 5]], 6);
    let target = vec![0i64, 1, 2, 30, 31, 32];
    let mut ens = AverageEnsemble::make(3, small_params(10));
    let mut rng = RandomSource::from_seed(9);
    ens.fit(&columns, &target, &mut rng).unwrap();
    let held_out = matrix(vec![vec![1, 4, -2]], 3);
    let combined = ens.predict(&held_out).unwrap();
    let member_preds: Vec<Vec<i64>> = ens
        .estimators
        .iter()
        .map(|m| m.predict(&held_out).unwrap())
        .collect();
    for j in 0..3usize {
        let mut sum: i128 = 0;
        for p in &member_preds {
            sum += p[j] as i128;
        }
        let n = member_preds.len() as i128;
        let mean = if sum >= 0 { sum / n } else { -((-sum) / n) };
        assert_eq!(combined[j] as i128, mean);
    }
}

#[test]
fn predict_all_has_one_row_per_member() {
    let columns = matrix(vec![vec![0, 1, 2, 3, 4, 5]], 6);
    let target = vec![0i64, 1, 2, 30, 31, 32];
    let mut ens = AverageEnsemble::make(4, small_params(5));
    let mut rng = RandomSource::from_seed(2);
    ens.fit(&columns, &target, &mut rng).unwrap();
    let all = ens.predict_all(&columns).unwrap();
    assert_eq!(all.len(), 4);
    for row in &all {
        assert_eq!(row.len(), 6);
    }
}

#[test]
fn predict_by_all_reduces_by_column_mean() {
    let ens = AverageEnsemble::make(2, small_params(1));
    let preds = vec![vec![1i64, 10, -7], vec![2i64, 20, -8]];
    let combined = ens.predict_by_all(&preds, 3);
    assert_eq!(combined, vec![1, 15, -7]);
}

#[test]
fn ensemble_predict_before_fit_is_unconfigured() {
    let columns = matrix(vec![vec![0, 1, 2]], 3);
    let ens = AverageEnsemble::make(2, small_params(3));
    assert_eq!(ens.predict(&columns), Err(ModelError::UnconfiguredModel));
}

#[test]
fn ensemble_predict_is_idempotent() {
    let columns = matrix(vec![vec![0, 1, 2, 3, 4, 5]], 6);
    let target = vec![0i64, 1, 2, 30, 31, 32];
    let mut ens = AverageEnsemble::make(2, small_params(8));
    let mut rng = RandomSource::from_seed(13);
    ens.fit(&columns, &target, &mut rng).unwrap();
    let a = ens.predict(&columns).unwrap();
    let b = ens.predict(&columns).unwrap();
    assert_eq!(a, b);
}

#[test]
fn single_fold_cross_validation_scores_zero() {
    // With one fold no (fold, validation-side) pair exists: the score is 0.
    let columns = matrix(vec![vec![0, 1, 2, 3, 4, 5]], 6);
    let target = vec![0i64, 1, 2, 30, 31, 32];
    let mut est = GradientBoostingImpl::new(small_params(5));
    let mut rng = RandomSource::from_seed(3);
    let score = eval_est_cv(&mut est, 1, &columns, &target, &mut rng).unwrap();
    assert_eq!(score, 0);
}

#[test]
fn cross_validation_scores_are_nonnegative() {
    let columns = matrix(vec![vec![0, 1, 2, 3, 4, 5, 6, 7, 8, 9]], 10);
    let target = vec![0i64, 1, 2, 3, 4, 50, 51, 52, 53, 54];
    let mut est = GradientBoostingImpl::new(small_params(5));
    let mut rng = RandomSource::from_seed(3);
    let score = eval_est_cv(&mut est, 5, &columns, &target, &mut rng).unwrap();
    assert!(score >= 0);
}

#[test]
fn eval_est_scores_by_mean_squared_error() {
    let train_c = matrix(vec![vec![0, 1, 2, 3]], 4);
    let train_t = vec![5i64, 5, 5, 5];
    let val_c = matrix(vec![vec![0, 1]], 2);
    let val_t = vec![5i64, 5];
    // A constant target is learned exactly by the bias, so the error on a
    // validation set with the same constant target is zero.
    let mut est = GradientBoostingImpl::new(small_params(2));
    let mut rng = RandomSource::from_seed(4);
    let score = eval_est(&mut est, &train_c, &train_t, &val_c, &val_t, &mut rng).unwrap();
    assert_eq!(score, 0);
}

#[test]
fn single_fold_cross_validation_leaves_the_estimator_untouched() {
    // With one fold no evaluation runs, so the estimator is never fitted.
    let columns = matrix(vec![vec![0, 1, 2, 3, 4, 5]], 6);
    let target = vec![0i64, 1, 2, 30, 31, 32];
    let mut est = GradientBoostingImpl::new(small_params(5));
    let mut rng = RandomSource::from_seed(3);
    eval_est_cv(&mut est, 1, &columns, &target, &mut rng).unwrap();
    assert!(!est.fitted);
}

#[test]
fn zero_round_evaluation_scores_the_bias_error() {
    // A zero-round model predicts its training bias; the score is the exact
    // mean squared error of that constant against the validation target.
    let train_c = matrix(vec![vec![0, 1, 2, 3]], 4);
    let train_t = vec![5i64, 5, 5, 5];
    let val_c = matrix(vec![vec![0, 1]], 2);
    let val_t = vec![7i64, 9];
    let mut est = GradientBoostingImpl::new(small_params(0));
    let mut rng = RandomSource::from_seed(4);
    // Bias 5 against targets 7 and 9: (4 + 16) / 2 = 10.
    let score = eval_est(&mut est, &train_c, &train_t, &val_c, &val_t, &mut rng).unwrap();
    assert_eq!(score, 10);
}
