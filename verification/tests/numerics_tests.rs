use woods::numerics::{div_trunc_i128, mean_i64, sum_i64, within_bound};

#[test]
fn sum_of_ticks_is_exact() {
    let xs = vec![1i64, -2, 3, -4, 5];
    assert_eq!(sum_i64(&xs), 3i128);
    let empty: Vec<i64> = vec![];
    assert_eq!(sum_i64(&empty), 0i128);
}

#[test]
fn mean_truncates_toward_zero() {
    assert_eq!(mean_i64(&vec![-3i64, 4]), 0);
    assert_eq!(mean_i64(&vec![-3i64, -4]), -3);
    assert_eq!(mean_i64(&vec![3i64, 4]), 3);
    assert_eq!(mean_i64(&vec![10i64, 10, 10]), 10);
}

#[test]
fn division_truncates_toward_zero() {
    assert_eq!(div_trunc_i128(7, 2), 3);
    assert_eq!(div_trunc_i128(-7, 2), -3);
    assert_eq!(div_trunc_i128(0, 5), 0);
    assert_eq!(div_trunc_i128(-1, 5), 0);
}

#[test]
fn within_bound_checks_magnitudes() {
    assert!(within_bound(&vec![-5i64, 0, 5], 5));
    assert!(!within_bound(&vec![-6i64, 0, 5], 5));
    assert!(within_bound(&vec![], 0));
}

#[test]
fn gather_selects_by_index_in_order() {
    let xs = vec![10i64, 20, 30, 40];
    let idx = vec![3usize, 0, 0, 2];
    assert_eq!(woods::array::gather(&xs, &idx), vec![40, 10, 10, 30]);
}
