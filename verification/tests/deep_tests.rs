use woods::array::Matrix;
use woods::codec::{deep_from_words, deep_to_words};
use woods::deep_boosting::{cv_best_params, select_best, DeepBoostingImpl, DeepBoostingParameters};
use woods::boosting::LearningRate;
use woods::error::ModelError;
use woods::random::RandomSource;

fn matrix(rows: Vec<Vec<i64>>, n_samples: usize) -> Matrix {
    let mut m = Matrix::new(n_samples);
    for row in rows {
        m.push_row(row);
    }
    m
}

fn small_deep(layers: u32, width: u32) -> DeepBoostingImpl {
    DeepBoostingImpl::new(DeepBoostingParameters::new(Some(layers), Some(width), None))
}

#[test]
fn deep_parameters_defaults() {
    let p = DeepBoostingParameters::new(None, None, None);
    assert_eq!(p.n_estimators, 5);
    assert_eq!(p.layer_width, 5);
    assert_eq!(p.learning_rate, LearningRate::new(1, 4));
}

#[test]
fn select_best_picks_the_first_minimum() {
    assert_eq!(select_best(&vec![5i64, 3, 3, 4]), 1);
    assert_eq!(select_best(&vec![7i64]), 0);
    assert_eq!(select_best(&vec![2i64, 2, 2]), 0);
}

#[test]
fn grid_search_returns_a_grid_configuration() {
    let columns = matrix(vec![vec![0, 1, 2, 3, 4, 5, 6, 7]], 8);
    let target = vec![0i64, 0, 1, 1, 9, 9, 10, 10];
    let mut rng = RandomSource::from_seed(21);
    let p = cv_best_params(&columns, &target, &mut rng);
    assert!(p.est_params.depth == 2 || p.est_params.depth == 3 || p.est_params.depth == 5);
    assert!(p.n_estimators == 100 || p.n_estimators == 1000);
    assert!(
        p.learning_rate == LearningRate::new(1, 10) || p.learning_rate == LearningRate::new(1, 100)
    );
}

#[test]
fn single_layer_output_is_the_first_ensemble_prediction() {
    // With one layer the model's output is exactly layer zero's combined
    // ensemble prediction: no meta-learning-rate scaling is applied.
    let columns = matrix(vec![vec![0, 1, 2, 3, 4, 5, 6, 7]], 8);
    let target = vec![0i64, 0, 1, 1, 9, 9, 10, 10];
    let mut deep = small_deep(1, 2);
    let mut rng = RandomSource::from_seed(17);
    deep.fit(&columns, &target, &mut rng).unwrap();
    let held_out = matrix(vec![vec![3, -1, 8]], 3);
    let out = deep.predict(&held_out).unwrap();
    let layer0 = deep.estimators[0].predict(&held_out).unwrap();
    assert_eq!(out, layer0);
}

#[test]
fn deep_predict_before_fit_is_unconfigured() {
    let columns = matrix(vec![vec![0, 1, 2]], 3);
    let deep = small_deep(2, 2);
    assert_eq!(deep.predict(&columns), Err(ModelError::UnconfiguredModel));
}

#[test]
fn deep_fit_rejects_mismatched_dimensions() {
    let columns = matrix(vec![vec![0, 1, 2, 3, 4, 5]], 6);
    let target = vec![1i64, 2, 3];
    let mut deep = small_deep(1, 1);
    let mut rng = RandomSource::from_seed(1);
    assert_eq!(deep.fit(&columns, &target, &mut rng), Err(ModelError::DimensionMismatch));
}

#[test]
fn deep_predict_returns_one_value_per_sample() {
    let columns = matrix(vec![vec![0, 1, 2, 3, 4, 5, 6, 7]], 8);
    let target = vec![0i64, 0, 1, 1, 9, 9, 10, 10];
    let mut deep = small_deep(2, 1);
    let mut rng = RandomSource::from_seed(19);
    deep.fit(&columns, &target, &mut rng).unwrap();
    let held_out = matrix(vec![vec![2, 5]], 2);
    assert_eq!(deep.predict(&held_out).unwrap().len(), 2);
}

#[test]
fn deep_predict_is_idempotent() {
    let columns = matrix(vec![vec![0, 1, 2, 3, 4, 5, 6, 7]], 8);
    let target = vec![0i64, 0, 1, 1, 9, 9, 10, 10];
    let mut deep = small_deep(2, 2);
    let mut rng = RandomSource::from_seed(23);
    deep.fit(&columns, &target, &mut rng).unwrap();
    let a = deep.predict(&columns).unwrap();
    let b = deep.predict(&columns).unwrap();
    assert_eq!(a, b);
}

#[test]
fn deep_words_round_trip() {
    // A fitted deep model persisted as words and read back predicts
    // identically on a fixed held-out input.
    let columns = matrix(vec![vec![0, 1, 2, 3, 4, 5, 6, 7]], 8);
    let target = vec![0i64, 0, 1, 1, 9, 9, 10, 10];
    let mut deep = small_deep(2, 2);
    let mut rng = RandomSource::from_seed(29);
    deep.fit(&columns, &target, &mut rng).unwrap();
    let words = deep_to_words(&deep);
    let loaded = deep_from_words(&words).unwrap();
    let held_out = matrix(vec![vec![3, -2, 9, 0]], 4);
    assert_eq!(deep.predict(&held_out).unwrap(), loaded.predict(&held_out).unwrap());
}

#[test]
fn zero_layers_fit_succeeds_and_stays_unconfigured() {
    // With layer count zero a fit succeeds with nothing to train; predicting
    // on the empty model is an explicit configuration error.
    let columns = matrix(vec![vec![0, 1, 2, 3, 4, 5]], 6);
    let target = vec![0i64, 0, 1, 1, 9, 9];
    let mut deep = small_deep(0, 2);
    let mut rng = RandomSource::from_seed(31);
    deep.fit(&columns, &target, &mut rng).unwrap();
    assert_eq!(deep.predict(&columns), Err(ModelError::UnconfiguredModel));
}

#[test]
fn every_layer_member_is_configured_from_the_grid() {
    let columns = matrix(vec![vec![0, 1, 2, 3, 4, 5, 6, 7]], 8);
    let target = vec![0i64, 0, 1, 1, 9, 9, 10, 10];
    let mut deep = small_deep(2, 2);
    let mut rng = RandomSource::from_seed(37);
    deep.fit(&columns, &target, &mut rng).unwrap();
    for layer in &deep.estimators {
        for member in &layer.estimators {
            let p = member.params;
            assert!(p.est_params.depth == 2 || p.est_params.depth == 3 || p.est_params.depth == 5);
            assert_eq!(p.est_params.min_samples_split, 2);
            assert!(p.n_estimators == 100 || p.n_estimators == 1000);
            assert!(
                p.learning_rate == LearningRate::new(1, 10)
                    || p.learning_rate == LearningRate::new(1, 100)
            );
        }
    }
}
