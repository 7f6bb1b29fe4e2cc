use woods::array::Matrix;
use woods::error::ModelError;
use woods::random::RandomSource;
use woods::rule::{best_split, RandomSplitRule};

fn matrix(rows: Vec<Vec<i64>>, n_samples: usize) -> Matrix {
    let mut m = Matrix::new(n_samples);
    for row in rows {
        m.push_row(row);
    }
    m
}

#[test]
fn exact_partition_has_zero_impurity() {
    // One feature 0,1,2,3 with target 0,0,10,10: a threshold separating
    // {0,1} from {2,3} scores a perfect split with side means 0 and 10.
    let columns = matrix(vec![vec![0, 1, 2, 3]], 4);
    let target = vec![0i64, 0, 10, 10];
    let idx = vec![0usize, 1, 2, 3];
    let thresholds = vec![Some(1i64)];
    let s = best_split(&columns, &target, &idx, &thresholds).unwrap();
    assert_eq!(s.feature, 0);
    assert_eq!(s.threshold, 1);
    assert_eq!(s.impurity, 0);
    assert_eq!(s.value_left, 0);
    assert_eq!(s.value_right, 10);
}

#[test]
fn imperfect_threshold_scores_worse() {
    // Threshold 2 puts target 10 into the left bucket: the impurity is the
    // left bucket's sum of squared deviations from its truncated mean 3:
    // 9 + 9 + 49 = 67.
    let columns = matrix(vec![vec![0, 1, 2, 3]], 4);
    let target = vec![0i64, 0, 10, 10];
    let idx = vec![0usize, 1, 2, 3];
    let thresholds = vec![Some(2i64)];
    let s = best_split(&columns, &target, &idx, &thresholds).unwrap();
    assert_eq!(s.impurity, 67);
    assert_eq!(s.value_left, 3);
    assert_eq!(s.value_right, 10);
}

#[test]
fn ties_go_to_the_first_feature() {
    // Two identical features: the first one must win.
    let columns = matrix(vec![vec![0, 1, 2, 3], vec![0, 1, 2, 3]], 4);
    let target = vec![0i64, 0, 10, 10];
    let idx = vec![0usize, 1, 2, 3];
    let thresholds = vec![Some(1i64), Some(1i64)];
    let s = best_split(&columns, &target, &idx, &thresholds).unwrap();
    assert_eq!(s.feature, 0);
}

#[test]
fn constant_feature_is_degenerate() {
    // A feature that is constant over all samples cannot split.
    let columns = matrix(vec![vec![5, 5, 5, 5]], 4);
    let target = vec![1i64, 2, 3, 4];
    let mut rule = RandomSplitRule::new();
    let mut rng = RandomSource::from_seed(7);
    let r = rule.fit_by_indices(&columns, &target, None, &mut rng);
    assert_eq!(r, Err(ModelError::DegenerateSplit));
    assert!(rule.get_split().is_none());
}

#[test]
fn fitted_threshold_lies_between_the_extremes() {
    // The drawn threshold always lies in [min, max) of the winning feature.
    let columns = matrix(vec![vec![0, 1, 2, 3]], 4);
    let target = vec![0i64, 0, 10, 10];
    for seed in 0..20u64 {
        let mut rule = RandomSplitRule::new();
        let mut rng = RandomSource::from_seed(seed);
        rule.fit_by_indices(&columns, &target, None, &mut rng).unwrap();
        let s = rule.get_split().unwrap();
        assert!(s.threshold >= 0 && s.threshold < 3);
    }
}

#[test]
fn split_indices_partition_the_selection() {
    let columns = matrix(vec![vec![0, 1, 2, 3]], 4);
    let target = vec![0i64, 0, 10, 10];
    let mut rule = RandomSplitRule::new();
    let mut rng = RandomSource::from_seed(1);
    rule.fit_by_indices(&columns, &target, None, &mut rng).unwrap();
    let si = rule.split_indices(&columns, None);
    let mut all: Vec<usize> = si.left.clone();
    all.extend_from_slice(&si.right);
    all.sort();
    assert_eq!(all, vec![0, 1, 2, 3]);
    assert!(!si.left.is_empty());
    assert!(!si.right.is_empty());
}

#[test]
fn rule_predict_before_fit_is_unconfigured() {
    let columns = matrix(vec![vec![0, 1, 2, 3]], 4);
    let rule = RandomSplitRule::new();
    assert_eq!(rule.predict(&columns), Err(ModelError::UnconfiguredModel));
}

#[test]
fn rule_predict_routes_by_threshold() {
    let columns = matrix(vec![vec![0, 1, 2, 3]], 4);
    let target = vec![0i64, 0, 10, 10];
    let mut rule = RandomSplitRule::new();
    let mut rng = RandomSource::from_seed(3);
    rule.fit_by_indices(&columns, &target, None, &mut rng).unwrap();
    let s = rule.get_split().unwrap();
    let preds = rule.predict(&columns).unwrap();
    assert_eq!(preds.len(), 4);
    for j in 0..4usize {
        let x = j as i64;
        let expect = if x > s.threshold { s.value_right } else { s.value_left };
        assert_eq!(preds[j], expect);
    }
}

#[test]
fn empty_selection_is_degenerate() {
    let columns = matrix(vec![vec![1, 2, 3]], 3);
    let target = vec![4i64, 5, 6];
    let idx: Vec<usize> = vec![];
    let mut rule = RandomSplitRule::new();
    let mut rng = RandomSource::from_seed(1);
    let r = rule.fit_by_indices(&columns, &target, Some(&idx), &mut rng);
    assert_eq!(r, Err(ModelError::DegenerateSplit));
}

#[test]
fn rule_fit_rejects_mismatched_dimensions() {
    let columns = matrix(vec![vec![0, 1, 2, 3]], 4);
    let target = vec![1i64, 2];
    let mut rule = RandomSplitRule::new();
    let mut rng = RandomSource::from_seed(1);
    assert_eq!(rule.fit(&columns, &target, &mut rng), Err(ModelError::DimensionMismatch));
}

#[test]
fn rule_fit_succeeds_on_a_splittable_feature() {
    let columns = matrix(vec![vec![0, 1, 2, 3]], 4);
    let target = vec![0i64, 0, 10, 10];
    let mut rule = RandomSplitRule::new();
    let mut rng = RandomSource::from_seed(5);
    rule.fit(&columns, &target, &mut rng).unwrap();
    assert!(rule.get_split().is_some());
}
