use tensor_compute::indexing::shape_strides_for_slice_range;
use tensor_compute::{ShapeStrides, SliceRangeInfo, TensorError};

#[test]
fn can_index() {
    let dim_stride = ShapeStrides::from_shape_vec(vec![4]);
    let slices_info = vec![SliceRangeInfo::new(0, Some(4), 1)];
    let shape_strides = shape_strides_for_slice_range(&dim_stride, &slices_info).unwrap();
    assert_eq!(shape_strides.shape, vec![4]);
    assert_eq!(shape_strides.strides, vec![1]);
    assert_eq!(shape_strides.offset, 0);

    let slices_info = vec![SliceRangeInfo::new(1, Some(4), 1)];
    let shape_strides = shape_strides_for_slice_range(&dim_stride, &slices_info).unwrap();
    assert_eq!(shape_strides.shape, vec![3]);
    assert_eq!(shape_strides.strides, vec![1]);
    assert_eq!(shape_strides.offset, 1);
}

#[test]
fn can_index_edge_cases() {
    // index whole dimension
    let dim_stride = ShapeStrides::from_shape_vec(vec![4]);
    let slices_info = vec![SliceRangeInfo::new(0, Some(4), 1)];
    let shape_strides = shape_strides_for_slice_range(&dim_stride, &slices_info).unwrap();
    assert_eq!(shape_strides.shape, vec![4]);
    assert_eq!(shape_strides.strides, vec![1]);
    assert_eq!(shape_strides.offset, 0);

    // index part of a dimension
    let dim_stride = ShapeStrides::from_shape_vec(vec![4]);
    let slices_info = vec![SliceRangeInfo::new(1, Some(3), 1)];
    let shape_strides = shape_strides_for_slice_range(&dim_stride, &slices_info).unwrap();
    assert_eq!(shape_strides.shape, vec![2]);
    assert_eq!(shape_strides.strides, vec![1]);
    assert_eq!(shape_strides.offset, 1);

    // index last dimension
    let dim_stride = ShapeStrides::from_shape_vec(vec![4]);
    let slices_info = vec![SliceRangeInfo::new(3, Some(4), 1)];
    let shape_strides = shape_strides_for_slice_range(&dim_stride, &slices_info).unwrap();
    assert_eq!(shape_strides.shape, vec![1]);
    assert_eq!(shape_strides.strides, vec![1]);
    assert_eq!(shape_strides.offset, 3);

    // index part of the dimensions
    let dim_stride = ShapeStrides::from_shape_vec(vec![4, 4, 4]);
    let slices_info = vec![
        SliceRangeInfo::new(0, None, 1),
        SliceRangeInfo::new(1, Some(4), 1),
    ];
    let shape_strides = shape_strides_for_slice_range(&dim_stride, &slices_info).unwrap();
    assert_eq!(shape_strides.shape, vec![4, 3, 4]);
    assert_eq!(shape_strides.strides, vec![16, 4, 1]);
    assert_eq!(shape_strides.offset, 4);

    // index part of the dimensions
    let dim_stride = ShapeStrides::from_shape_vec(vec![4, 4, 4]);
    let slices_info = vec![
        SliceRangeInfo::new(1, Some(2), 1),
        SliceRangeInfo::new(1, Some(4), 1),
    ];
    let shape_strides = shape_strides_for_slice_range(&dim_stride, &slices_info).unwrap();
    assert_eq!(shape_strides.shape, vec![1, 3, 4]);
    assert_eq!(shape_strides.strides, vec![16, 4, 1]);
    assert_eq!(shape_strides.offset, 20);
}

#[test]
fn allows_start_equals_end() {
    let dim_stride = ShapeStrides::from_shape_vec(vec![4]);
    let slices_info = vec![SliceRangeInfo::new(0, Some(1), 1)];
    let shape_stride = shape_strides_for_slice_range(&dim_stride, &slices_info).unwrap();
    assert_eq!(shape_stride.shape, vec![1]);
    assert_eq!(shape_stride.strides, vec![1]);
    assert_eq!(shape_stride.offset, 0);
}

#[test]
fn test() {
    let a = SliceRangeInfo::new(0, Some(3), 1);
    println!("{:?}", a);
}

#[test]
fn identity_slice_returns_descriptor_unchanged() {
    let d = ShapeStrides::from_shape_vec(vec![3, 5, 2]);
    let bounds = vec![
        SliceRangeInfo::new(0, Some(3), 1),
        SliceRangeInfo::new(0, None, 1),
        SliceRangeInfo::new(0, Some(2), 1),
    ];
    let sliced = shape_strides_for_slice_range(&d, &bounds).unwrap();
    assert_eq!(sliced.shape, d.shape);
    assert_eq!(sliced.strides, d.strides);
    assert_eq!(sliced.offset, d.offset);
}

#[test]
fn single_index_slice_keeps_extent_one_at_right_offset() {
    let d = ShapeStrides::from_shape_vec(vec![4, 4]);
    // inclusive range with start == end selects one element
    let bounds = vec![SliceRangeInfo::new(3, Some(4), 1)];
    let sliced = shape_strides_for_slice_range(&d, &bounds).unwrap();
    assert_eq!(sliced.shape, vec![1, 4]);
    assert_eq!(sliced.offset, 12);
}

#[test]
fn slicing_past_extent_fails_with_index_out_of_range() {
    let d = ShapeStrides::from_shape_vec(vec![4]);
    let bounds = vec![SliceRangeInfo::new(0, Some(5), 1)];
    assert_eq!(
        shape_strides_for_slice_range(&d, &bounds).err(),
        Some(TensorError::IndexOutOfRange)
    );

    let bounds = vec![SliceRangeInfo::new(4, None, 1)];
    assert_eq!(
        shape_strides_for_slice_range(&d, &bounds).err(),
        Some(TensorError::IndexOutOfRange)
    );

    // more ranges than dimensions
    let bounds = vec![
        SliceRangeInfo::new(0, None, 1),
        SliceRangeInfo::new(0, None, 1),
    ];
    assert_eq!(
        shape_strides_for_slice_range(&d, &bounds).err(),
        Some(TensorError::IndexOutOfRange)
    );
}

#[test]
fn stepped_slice_rounds_extent_up_and_scales_stride() {
    let d = ShapeStrides::from_shape_vec(vec![7]);
    let bounds = vec![SliceRangeInfo::new(1, Some(7), 2)];
    let sliced = shape_strides_for_slice_range(&d, &bounds).unwrap();
    // selected run 1..=6 stepped by 2 selects 1, 3, 5
    assert_eq!(sliced.shape, vec![3]);
    assert_eq!(sliced.strides, vec![2]);
    assert_eq!(sliced.offset, 1);
}

#[test]
fn step_by_multiplies_the_step() {
    let r = SliceRangeInfo::new(1, Some(7), 2).step_by(3);
    assert_eq!(r.start, 1);
    assert_eq!(r.inclusive_end, Some(6));
    assert_eq!(r.step, 6);
}
