use woods::array::Matrix;
use woods::boosting::{GradientBoostingImpl, GradientBoostingParameters, LearningRate};
use woods::codec::{gbm_from_words, gbm_to_words};
use woods::error::ModelError;
use woods::random::RandomSource;
use woods::tree::TreeParameters;

fn matrix(rows: Vec<Vec<i64>>, n_samples: usize) -> Matrix {
    let mut m = Matrix::new(n_samples);
    for row in rows {
        m.push_row(row);
    }
    m
}

#[test]
fn boosting_parameters_defaults() {
    let p = GradientBoostingParameters::new(TreeParameters::new(None, None), None, None);
    assert_eq!(p.n_estimators, 100);
    assert_eq!(p.learning_rate, LearningRate::new(1, 10));
}

#[test]
fn scale_truncates_toward_zero() {
    let half = LearningRate::new(1, 2);
    assert_eq!(woods::boosting::scale_i64(half, 7), 3);
    assert_eq!(woods::boosting::scale_i64(half, -7), -3);
    assert_eq!(woods::boosting::scale_i64(half, 0), 0);
}

#[test]
fn zero_rounds_predicts_the_bias() {
    // With estimator count zero the model is bias-only: every prediction is
    // the mean of the fitted target.
    let columns = matrix(vec![vec![0, 1, 2]], 3);
    let target = vec![2i64, 4, 6];
    let params = GradientBoostingParameters::new(TreeParameters::new(None, None), Some(0), None);
    let mut gbm = GradientBoostingImpl::new(params);
    let mut rng = RandomSource::from_seed(1);
    gbm.fit(&columns, &target, &mut rng).unwrap();
    let held_out = matrix(vec![vec![-5, 100]], 2);
    assert_eq!(gbm.predict(&held_out).unwrap(), vec![4, 4]);
}

#[test]
fn gbm_predict_before_fit_is_unconfigured() {
    let columns = matrix(vec![vec![0, 1, 2]], 3);
    let params = GradientBoostingParameters::new(TreeParameters::new(None, None), Some(3), None);
    let gbm = GradientBoostingImpl::new(params);
    assert_eq!(gbm.predict(&columns), Err(ModelError::UnconfiguredModel));
}

#[test]
fn gbm_fit_rejects_mismatched_dimensions() {
    let columns = matrix(vec![vec![0, 1, 2]], 3);
    let target = vec![1i64, 2];
    let params = GradientBoostingParameters::new(TreeParameters::new(None, None), Some(3), None);
    let mut gbm = GradientBoostingImpl::new(params);
    let mut rng = RandomSource::from_seed(1);
    assert_eq!(gbm.fit(&columns, &target, &mut rng), Err(ModelError::DimensionMismatch));
}

#[test]
fn gbm_predict_returns_one_value_per_sample() {
    let columns = matrix(vec![vec![0, 1, 2, 3, 4, 5]], 6);
    let target = vec![0i64, 1, 2, 30, 31, 32];
    let params = GradientBoostingParameters::new(TreeParameters::new(None, None), Some(20), None);
    let mut gbm = GradientBoostingImpl::new(params);
    let mut rng = RandomSource::from_seed(4);
    gbm.fit(&columns, &target, &mut rng).unwrap();
    let held_out = matrix(vec![vec![1, 4]], 2);
    assert_eq!(gbm.predict(&held_out).unwrap().len(), 2);
}

#[test]
fn gbm_predict_is_idempotent() {
    let columns = matrix(vec![vec![0, 1, 2, 3, 4, 5]], 6);
    let target = vec![0i64, 1, 2, 30, 31, 32];
    let params = GradientBoostingParameters::new(TreeParameters::new(None, None), Some(15), None);
    let mut gbm = GradientBoostingImpl::new(params);
    let mut rng = RandomSource::from_seed(4);
    gbm.fit(&columns, &target, &mut rng).unwrap();
    let a = gbm.predict(&columns).unwrap();
    let b = gbm.predict(&columns).unwrap();
    assert_eq!(a, b);
}

#[test]
fn gbm_words_round_trip() {
    let columns = matrix(vec![vec![0, 1, 2, 3, 4, 5], vec![5, 4, 3, 2, 1, 0]], 6);
    let target = vec![0i64, 1, 2, 30, 31, 32];
    let params = GradientBoostingParameters::new(TreeParameters::new(Some(2), None), Some(8), None);
    let mut gbm = GradientBoostingImpl::new(params);
    let mut rng = RandomSource::from_seed(6);
    gbm.fit(&columns, &target, &mut rng).unwrap();
    let words = gbm_to_words(&gbm);
    let loaded = gbm_from_words(&words).unwrap();
    let held_out = matrix(vec![vec![2, -3, 7], vec![0, 9, 1]], 3);
    assert_eq!(gbm.predict(&held_out).unwrap(), loaded.predict(&held_out).unwrap());
}

#[test]
fn mean_sq_err_is_exact_and_overflow_is_reported() {
    // (1-0)^2 + (5-2)^2 = 10, over two samples: truncated mean 5.
    let r = woods::estimator::mean_sq_err(&vec![1i64, 5], &vec![0i64, 2]).unwrap();
    assert_eq!(r, 5);
    // A squared difference beyond 128 bits is a numeric overflow.
    let o = woods::estimator::mean_sq_err(&vec![i64::MAX], &vec![i64::MIN]);
    assert_eq!(o, Err(ModelError::NumericOverflow));
}

#[test]
fn fitting_on_no_samples_gives_a_zero_bias_model() {
    // An empty target has bias zero; every tree is empty, so predictions on
    // any sample count over the same (zero) feature count are all zero.
    let columns = matrix(vec![], 0);
    let target: Vec<i64> = vec![];
    let params = GradientBoostingParameters::new(TreeParameters::new(None, None), Some(3), None);
    let mut gbm = GradientBoostingImpl::new(params);
    let mut rng = RandomSource::from_seed(2);
    gbm.fit(&columns, &target, &mut rng).unwrap();
    let held_out = matrix(vec![], 5);
    assert_eq!(gbm.predict(&held_out).unwrap(), vec![0, 0, 0, 0, 0]);
}
