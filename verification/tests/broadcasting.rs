use tensor_compute::broadcast_shape_and_stride;
use tensor_compute::{ShapeStrides, TensorError};

#[test]
fn broadcast_work() {
    let a = ShapeStrides::from_shape_vec(vec![2, 2, 2]);
    let b = ShapeStrides::from_shape_vec(vec![2, 2]);
    let (a_view, b_view) = broadcast_shape_and_stride(&a, &b, None).unwrap();
    assert_eq!(a_view.shape, vec![2, 2, 2]);
    assert_eq!(a_view.strides, vec![4, 2, 1]);
    assert_eq!(b_view.shape, vec![2, 2, 2]);
    assert_eq!(b_view.strides, vec![0, 2, 1]);
}

#[test]
fn broadcast_from_scalar() {
    let a = ShapeStrides::from_shape_vec(vec![1]);
    let b = ShapeStrides::from_shape_vec(vec![100]);
    let (a_view, b_view) = broadcast_shape_and_stride(&a, &b, None).unwrap();
    assert_eq!(a_view.shape, vec![100]);
    assert_eq!(a_view.strides, vec![0]);
    assert_eq!(b_view.shape, vec![100]);
    assert_eq!(b_view.strides, vec![1]);
}

#[test]
fn broadcast_shape_outcome_is_commutative() {
    let a = ShapeStrides::from_shape_vec(vec![4, 1, 3]);
    let b = ShapeStrides::from_shape_vec(vec![5, 1]);
    let (x, y) = broadcast_shape_and_stride(&a, &b, None).unwrap();
    let (x2, y2) = broadcast_shape_and_stride(&b, &a, None).unwrap();
    assert_eq!(x.shape, vec![4, 5, 3]);
    assert_eq!(x.shape, y.shape);
    assert_eq!(x2.shape, x.shape);
    assert_eq!(y2.shape, y.shape);
}

#[test]
fn incompatible_extents_fail() {
    let a = ShapeStrides::from_shape_vec(vec![2, 3]);
    let b = ShapeStrides::from_shape_vec(vec![2, 4]);
    let r = broadcast_shape_and_stride(&a, &b, None);
    assert_eq!(
        r.err(),
        Some(TensorError::BroadcastIncompatible { dim_a: 3, dim_b: 4 })
    );
    // acceptance does not depend on the operand order either
    assert!(broadcast_shape_and_stride(&b, &a, None).is_err());
}

#[test]
fn skipped_trailing_dimensions_are_left_alone() {
    // the matrix dimensions differ, but they are excluded from broadcasting
    let a = ShapeStrides::from_shape_vec(vec![2, 2, 3]);
    let b = ShapeStrides::from_shape_vec(vec![1, 3, 4]);
    let (x, y) = broadcast_shape_and_stride(&a, &b, Some(2)).unwrap();
    assert_eq!(x.shape, vec![2, 2, 3]);
    assert_eq!(y.shape, vec![2, 3, 4]);
    assert_eq!(y.strides, vec![0, 4, 1]);
}
