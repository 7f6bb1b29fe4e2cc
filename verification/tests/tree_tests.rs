use woods::array::Matrix;
use woods::codec::{tree_from_words, tree_to_words};
use woods::error::ModelError;
use woods::random::RandomSource;
use woods::tree::{DecisionTreeImpl, TreeParameters};

fn matrix(rows: Vec<Vec<i64>>, n_samples: usize) -> Matrix {
    let mut m = Matrix::new(n_samples);
    for row in rows {
        m.push_row(row);
    }
    m
}

#[test]
fn tree_parameters_defaults() {
    let p = TreeParameters::new(None, None);
    assert_eq!(p.depth, 3);
    assert_eq!(p.min_samples_split, 2);
    let q = TreeParameters::new(Some(5), Some(4));
    assert_eq!(q.depth, 5);
    assert_eq!(q.min_samples_split, 4);
}

#[test]
fn constant_feature_gives_empty_tree() {
    // With only a constant feature the root split fails, so the tree
    // terminates at depth zero: no nodes, and every prediction is zero.
    let columns = matrix(vec![vec![7, 7, 7, 7]], 4);
    let target = vec![1i64, 2, 3, 4];
    let mut tree = DecisionTreeImpl::new(TreeParameters::new(None, None));
    let mut rng = RandomSource::from_seed(11);
    tree.fit(&columns, &target, &mut rng).unwrap();
    assert_eq!(tree.node_count(), 0);
    let preds = tree.predict(&columns).unwrap();
    assert_eq!(preds, vec![0, 0, 0, 0]);
}

#[test]
fn tree_predict_before_fit_is_unconfigured() {
    let columns = matrix(vec![vec![0, 1, 2, 3]], 4);
    let tree = DecisionTreeImpl::new(TreeParameters::new(None, None));
    assert_eq!(tree.predict(&columns), Err(ModelError::UnconfiguredModel));
}

#[test]
fn tree_fit_rejects_mismatched_dimensions() {
    let columns = matrix(vec![vec![0, 1, 2, 3]], 4);
    let target = vec![1i64, 2, 3];
    let mut tree = DecisionTreeImpl::new(TreeParameters::new(None, None));
    let mut rng = RandomSource::from_seed(1);
    assert_eq!(tree.fit(&columns, &target, &mut rng), Err(ModelError::DimensionMismatch));
}

#[test]
fn tree_predict_rejects_wrong_feature_count() {
    let columns = matrix(vec![vec![0, 1, 2, 3]], 4);
    let target = vec![0i64, 0, 10, 10];
    let mut tree = DecisionTreeImpl::new(TreeParameters::new(None, None));
    let mut rng = RandomSource::from_seed(1);
    tree.fit(&columns, &target, &mut rng).unwrap();
    let wide = matrix(vec![vec![0, 1], vec![2, 3]], 2);
    assert_eq!(tree.predict(&wide), Err(ModelError::DimensionMismatch));
}

#[test]
fn tree_predict_returns_one_value_per_sample() {
    let columns = matrix(vec![vec![0, 1, 2, 3, 4, 5]], 6);
    let target = vec![0i64, 0, 0, 9, 9, 9];
    let mut tree = DecisionTreeImpl::new(TreeParameters::new(None, None));
    let mut rng = RandomSource::from_seed(2);
    tree.fit(&columns, &target, &mut rng).unwrap();
    let held_out = matrix(vec![vec![-1, 2, 10]], 3);
    let preds = tree.predict(&held_out).unwrap();
    assert_eq!(preds.len(), 3);
}

#[test]
fn tree_predict_is_idempotent() {
    let columns = matrix(vec![vec![0, 1, 2, 3, 4, 5]], 6);
    let target = vec![0i64, 0, 0, 9, 9, 9];
    let mut tree = DecisionTreeImpl::new(TreeParameters::new(None, None));
    let mut rng = RandomSource::from_seed(5);
    tree.fit(&columns, &target, &mut rng).unwrap();
    let a = tree.predict(&columns).unwrap();
    let b = tree.predict(&columns).unwrap();
    assert_eq!(a, b);
}

#[test]
fn tree_words_round_trip() {
    // A fitted tree persisted as words and read back predicts identically.
    let columns = matrix(vec![vec![0, 1, 2, 3, 4, 5], vec![3, 1, 4, 1, 5, 9]], 6);
    let target = vec![0i64, 0, 0, 9, 9, 9];
    let mut tree = DecisionTreeImpl::new(TreeParameters::new(Some(4), None));
    let mut rng = RandomSource::from_seed(8);
    tree.fit(&columns, &target, &mut rng).unwrap();
    let words = tree_to_words(&tree);
    let loaded = tree_from_words(&words).unwrap();
    let held_out = matrix(vec![vec![2, -3, 7, 0, 1, 4], vec![1, 1, 2, 3, 5, 8]], 6);
    assert_eq!(tree.predict(&held_out).unwrap(), loaded.predict(&held_out).unwrap());
    assert_eq!(loaded.node_count(), tree.node_count());
}

#[test]
fn corrupt_words_are_rejected() {
    let columns = matrix(vec![vec![0, 1, 2, 3]], 4);
    let target = vec![0i64, 0, 10, 10];
    let mut tree = DecisionTreeImpl::new(TreeParameters::new(None, None));
    let mut rng = RandomSource::from_seed(8);
    tree.fit(&columns, &target, &mut rng).unwrap();
    let mut words = tree_to_words(&tree);
    words.pop();
    assert!(tree_from_words(&words).is_none());
    assert!(tree_from_words(&vec![]).is_none());
}

#[test]
fn splittable_input_builds_a_nonempty_tree() {
    // A varying feature always yields a root split fitted on all samples.
    let columns = matrix(vec![vec![0, 1, 2, 3]], 4);
    let target = vec![0i64, 0, 10, 10];
    let mut tree = DecisionTreeImpl::new(TreeParameters::new(None, None));
    let mut rng = RandomSource::from_seed(41);
    tree.fit(&columns, &target, &mut rng).unwrap();
    assert!(tree.node_count() > 0);
    assert!(tree.splitters[0].split_info.is_some());
}

#[test]
fn zero_depth_gives_an_empty_tree() {
    let columns = matrix(vec![vec![0, 1, 2, 3]], 4);
    let target = vec![0i64, 0, 10, 10];
    let mut tree = DecisionTreeImpl::new(TreeParameters::new(Some(0), None));
    let mut rng = RandomSource::from_seed(43);
    tree.fit(&columns, &target, &mut rng).unwrap();
    assert_eq!(tree.node_count(), 0);
    assert_eq!(tree.predict(&columns).unwrap(), vec![0, 0, 0, 0]);
}
