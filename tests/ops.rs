use autograd::ops::{check_sparse_shapes, gather_per_row, Squeeze, StopGradient};
use autograd::op::{Op, OpError};

#[test]
fn squeeze_plans_axes_in_turn() {
    let s = Squeeze { axes: vec![2] };
    assert_eq!(s.removal_axes(3), Some(vec![2]));
    let s = Squeeze { axes: vec![0, 1] };
    assert_eq!(s.removal_axes(3), Some(vec![0, 0]));
    let s = Squeeze { axes: vec![0, -1] };
    assert_eq!(s.removal_axes(3), Some(vec![0, 1]));
}

#[test]
fn squeeze_rejects_missing_axes() {
    assert_eq!(Squeeze { axes: vec![3] }.removal_axes(3), None);
    assert_eq!(Squeeze { axes: vec![-1] }.removal_axes(3), None);
    assert_eq!(Squeeze { axes: vec![-2] }.removal_axes(3), None);
    assert_eq!(Squeeze { axes: vec![1, 0] }.removal_axes(3), None);
    assert_eq!(Squeeze { axes: vec![0, 0] }.removal_axes(1), None);
}

#[test]
fn gather_picks_one_per_row() {
    let flat = vec![10, 11, 12, 20, 21, 22];
    assert_eq!(gather_per_row(&flat, 3, &vec![2, 0]), Some(vec![12, 20]));
    assert_eq!(gather_per_row(&flat, 2, &vec![1, 1, 0]), Some(vec![11, 20, 21]));
    assert_eq!(gather_per_row(&Vec::<u8>::new(), 0, &vec![]), Some(vec![]));
}

#[test]
fn gather_rejects_bad_classes_and_sizes() {
    let flat = vec![10, 11, 12, 20, 21, 22];
    assert_eq!(gather_per_row(&flat, 3, &vec![3, 0]), None);
    assert_eq!(gather_per_row(&flat, 3, &vec![0]), None);
    assert_eq!(gather_per_row(&flat, 4, &vec![0]), None);
    assert_eq!(gather_per_row(&flat, 0, &vec![0]), None);
}

#[test]
fn sparse_shapes() {
    assert!(check_sparse_shapes(&vec![4, 3], &vec![4]));
    assert!(check_sparse_shapes(&vec![4, 3], &vec![4, 1]));
    assert!(!check_sparse_shapes(&vec![4, 3], &vec![4, 2]));
    assert!(!check_sparse_shapes(&vec![4, 3, 1], &vec![4]));
    assert!(!check_sparse_shapes(&vec![4, 3], &vec![4, 1, 1]));
}

#[test]
fn stop_gradient_answers_with_delegation() {
    let s = StopGradient;
    let x = 5u32;
    let ys = s.compute(&vec![&x]);
    assert_eq!(ys.len(), 1);
    assert!(matches!(ys[0], Some(Err(OpError::Delegate { to: 0 }))));
    assert_eq!(Op::<u32>::name(&s), "StopGradient");
}
