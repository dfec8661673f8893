use tensor_compute::shape::{numel_from_shape, shape_fits, strides_from_deque_shape};
use tensor_compute::{CpuTensor, ShapeStrides, TensorError};

#[test]
pub fn can_calc_strides_from_shape() {
    assert_eq!(strides_from_deque_shape(&Vec::new()), Vec::<usize>::new());
    assert_eq!(strides_from_deque_shape(&vec![2, 2]), vec![2, 1]);
    assert_eq!(strides_from_deque_shape(&vec![1, 2]), vec![2, 1]);
    assert_eq!(strides_from_deque_shape(&vec![3, 1, 2]), vec![2, 2, 1]);
    assert_eq!(strides_from_deque_shape(&vec![1, 1]), vec![1, 1]);
    assert_eq!(strides_from_deque_shape(&vec![4, 3, 2, 2]), vec![12, 4, 2, 1]);
}

#[test]
fn tests_strides_work() {
    let a = CpuTensor::from_data_and_shape(
        vec![1f32, 2., 3., 4.].into_iter().map(f32::to_bits).collect(),
        vec![2, 2],
    );
    assert_eq!(a.strides, vec![2, 1]);

    let a = CpuTensor::from_data_and_shape(
        vec![1f32, 2., 3., 4., 5., 6., 7., 8.].into_iter().map(f32::to_bits).collect(),
        vec![2, 2, 2],
    );
    assert_eq!(a.strides, vec![4, 2, 1]);
}

#[test]
fn gpu_tensor_strides_work() {
    let a = CpuTensor::from_data_and_shape(
        vec![1f32, 2., 3., 4.].into_iter().map(f32::to_bits).collect(),
        vec![2, 2],
    );
    assert_eq!(a.strides, vec![2, 1]);

    let a = CpuTensor::from_data_and_shape(
        vec![1f32, 2., 3., 4., 5., 6., 7., 8.].into_iter().map(f32::to_bits).collect(),
        vec![2, 2, 2],
    );
    assert_eq!(a.strides, vec![4, 2, 1]);
}

#[test]
fn from_shape_strides_follow_right_to_left_products() {
    let d = ShapeStrides::from_shape(vec![4, 3, 2, 2]);
    assert_eq!(d.strides, vec![3 * 2 * 2, 2 * 2, 2, 1]);
    assert_eq!(d.offset, 0);
    assert_eq!(numel_from_shape(&d.shape), 4 * 3 * 2 * 2);
    // the empty shape addresses no elements
    assert_eq!(numel_from_shape(&Vec::new()), 0);
    // a zero extent makes the whole tensor empty
    assert_eq!(numel_from_shape(&vec![3, 0, 2]), 0);
}

#[test]
fn rank_changes_push_and_pop_phantom_dimension() {
    let mut d = ShapeStrides::from_shape(vec![2, 3]);
    d.increase_rank();
    assert_eq!(d.shape, vec![1, 2, 3]);
    assert_eq!(d.strides, vec![0, 3, 1]);
    assert!(d.decrease_rank().is_ok());
    assert_eq!(d.shape, vec![2, 3]);
    assert_eq!(d.strides, vec![3, 1]);
    // the leading extent is 2, not 1: the rank can not drop
    assert_eq!(d.decrease_rank().err(), Some(TensorError::InvalidRankChange));
    assert_eq!(d.shape, vec![2, 3]);
}

#[test]
fn is_scalar_and_is_contiguous() {
    let d = ShapeStrides::from_shape(vec![1]);
    assert!(d.is_scalar());
    assert!(d.is_contiguous());
    let d = ShapeStrides::from_shape(vec![2, 2]);
    assert!(!d.is_scalar());
    assert!(d.is_contiguous());
    // a phantom stride of 0 still counts as contiguous
    let d = ShapeStrides::from_shape_and_strides_vec(vec![2, 2], vec![0, 1]);
    assert!(d.is_contiguous());
    let d = ShapeStrides::from_shape_and_strides_vec(vec![2, 2], vec![1, 2]);
    assert!(!d.is_contiguous());
}

#[test]
fn reshape_keeps_element_count() {
    let mut d = ShapeStrides::from_shape(vec![2, 4]);
    assert!(d.reshape(vec![4, 2]).is_ok());
    assert_eq!(d.shape, vec![4, 2]);
    assert_eq!(d.strides, vec![2, 1]);
    assert_eq!(d.reshape(vec![3, 3]).err(), Some(TensorError::ShapeMismatch));
    assert_eq!(d.shape, vec![4, 2]);
    // a broadcast (stride 0) dimension has no linear layout to reinterpret
    let mut b = ShapeStrides::from_shape_and_strides_vec(vec![2, 2], vec![0, 1]);
    assert_eq!(b.reshape(vec![4]).err(), Some(TensorError::ShapeMismatch));
}

#[test]
fn shape_fits_detects_overflowing_products() {
    assert!(shape_fits(&vec![4, 3, 2, 2]));
    assert!(shape_fits(&Vec::new()));
    assert!(shape_fits(&vec![usize::MAX, 0]));
    assert!(!shape_fits(&vec![2, usize::MAX]));
    assert!(!shape_fits(&vec![0, usize::MAX, 2]));
}
