use tensor_compute::{CpuTensor, SliceRangeInfo};

fn words(values: Vec<f32>) -> Vec<u32> {
    values.into_iter().map(f32::to_bits).collect()
}

fn floats(w: Vec<u32>) -> Vec<f32> {
    w.into_iter().map(f32::from_bits).collect()
}

#[test]
fn fill_with() {
    let mut tensor = CpuTensor::from_data_and_shape(
        words(vec![-1., -2., -3., -4., 5., 6.]),
        vec![3, 2],
    );
    tensor.fill_with(10f32.to_bits());
    assert_eq!(
        floats(tensor.as_contiguous_vec()),
        vec![10., 10., 10., 10., 10., 10.]
    );
}

#[test]
fn simple_assign() {
    let mut ma = CpuTensor::from_data_and_shape(
        (0..8).map(|e| (e as f32).to_bits()).collect(),
        vec![2, 2, 2],
    );
    let bounds = vec![
        SliceRangeInfo::new(0, Some(1), 1),
        SliceRangeInfo::new(1, Some(2), 1),
    ];
    ma.assign(&bounds, 10f32.to_bits()).unwrap();
    assert_eq!(
        floats(ma.as_contiguous_vec()),
        vec![0., 1., 10., 10., 4., 5., 6., 7.]
    );
}

#[test]
pub fn can_transpose() {
    let original = CpuTensor::from_data_and_shape(
        words(vec![1., 2., 3., 4., 5., 6., 7., 8., 9., 10., 11., 12.]),
        vec![1, 2, 2, 3],
    );
    let transposed = original.transpose();
    assert_eq!(
        floats(transposed.as_contiguous_vec()),
        vec![1.0, 4.0, 2.0, 5.0, 3.0, 6.0, 7.0, 10.0, 8.0, 11.0, 9.0, 12.0]
    );
    assert_eq!(transposed.shape, vec![1, 2, 3, 2]);
    let transposed_twice = transposed.transpose();
    assert_eq!(transposed_twice.shape, vec![1, 2, 2, 3]);
    assert_eq!(
        floats(transposed_twice.as_contiguous_vec()),
        vec![1., 2., 3., 4., 5., 6., 7., 8., 9., 10., 11., 12.]
    );
}

#[test]
fn compare_test() {
    let tensor_a =
        CpuTensor::from_data_and_shape((0..6).map(|e| (e as f32).to_bits()).collect(), vec![3, 2]);
    let tensor_b =
        CpuTensor::from_data_and_shape((0..6).map(|e| (e as f32).to_bits()).collect(), vec![3, 2]);
    let tensor_c =
        CpuTensor::from_data_and_shape((1..7).map(|e| (e as f32).to_bits()).collect(), vec![3, 2]);
    assert!(tensor_a.eq(&tensor_b));
    assert!(!tensor_a.eq(&tensor_c));
}

#[test]
fn eq_distinguishes_shape_data_and_accepts_empty() {
    let a = CpuTensor::from_data_and_shape(words(vec![1., 2., 3., 4.]), vec![4]);
    let same = CpuTensor::from_data_and_shape(words(vec![1., 2., 3., 4.]), vec![4]);
    let other_shape = CpuTensor::from_data_and_shape(words(vec![1., 2., 3., 4.]), vec![2, 2]);
    let other_data = CpuTensor::from_data_and_shape(words(vec![1., 2., 3., 5.]), vec![4]);
    assert!(a.eq(&same));
    assert!(!a.eq(&other_shape));
    assert!(!a.eq(&other_data));
    // two independently constructed empty tensors are equal
    let e1 = CpuTensor::from_data_and_shape(Vec::new(), Vec::new());
    let e2 = CpuTensor::from_data_and_shape(Vec::new(), Vec::new());
    assert!(e1.eq(&e2));
    assert!(!e1.eq(&a));
}

#[test]
fn can_create_contiguous_from_view() {
    let ma = CpuTensor::from_data_and_shape(
        words(vec![2., 3., 4., 5., 6., 7., 8., 9.]),
        vec![2, 2, 2],
    );
    let bounds = vec![
        SliceRangeInfo::new(0, None, 1),
        SliceRangeInfo::new(0, Some(1), 1),
        SliceRangeInfo::new(1, Some(2), 1),
    ];
    let view = ma.slice(&bounds).unwrap();
    let tensor = view.contiguous();
    assert_eq!(tensor.as_contiguous_vec(), view.as_contiguous_vec());
    assert!(tensor.eq(&view));
}

#[test]
fn tests_can_clone() {
    let ma = CpuTensor::from_data_and_shape(
        words(vec![2., 3., 4., 5., 6., 7., 8., 9.]),
        vec![2, 2, 2],
    );
    let tensor = ma.contiguous();
    assert!(ma.eq(&tensor));
}

#[test]
fn tests_can_clone_non_uniform_shape() {
    let ma = CpuTensor::from_data_and_shape(words(vec![2., 3., 4., 5., 6., 7.]), vec![2, 3]);
    let tensor = ma.contiguous();
    assert!(ma.eq(&tensor));
}

#[test]
fn slice_works() {
    let a = CpuTensor::from_data_and_shape(
        words(vec![1., 2., 3., 4., 5., 6., 7., 8.]),
        vec![2, 2, 2],
    );
    let bounds = vec![SliceRangeInfo::new(0, Some(1), 1)];
    let view = a.slice(&bounds).unwrap();
    let expected =
        CpuTensor::from_data_and_shape(words(vec![1., 2., 3., 4.]), vec![1, 2, 2]);
    assert!(view.eq(&expected));
}

#[test]
fn round_trip_from_data_to_host() {
    let data = words(vec![3., 1., 4., 1., 5., 9., 2., 6.]);
    let t = CpuTensor::from_data_and_shape(data.clone(), vec![2, 4]);
    assert_eq!(t.as_contiguous_vec(), data);
}

#[test]
fn contiguous_is_idempotent_on_views() {
    // a broadcast view: one row repeated three times through stride 0
    let v = CpuTensor::new_with_strides_and_offset(
        words(vec![7., 8.]),
        vec![3, 2],
        vec![0, 1],
        0,
    );
    assert_eq!(floats(v.as_contiguous_vec()), vec![7., 8., 7., 8., 7., 8.]);
    let m = v.contiguous();
    assert_eq!(m.as_contiguous_vec(), v.as_contiguous_vec());
    // a sliced view with an offset
    let t = CpuTensor::from_data_and_shape(words(vec![0., 1., 2., 3., 4., 5.]), vec![2, 3]);
    let view = t
        .slice(&vec![
            SliceRangeInfo::new(1, Some(2), 1),
            SliceRangeInfo::new(1, None, 1),
        ])
        .unwrap();
    assert_eq!(floats(view.as_contiguous_vec()), vec![4., 5.]);
    assert_eq!(
        view.contiguous().as_contiguous_vec(),
        view.as_contiguous_vec()
    );
}

#[test]
fn idx_reads_through_strides() {
    let t = CpuTensor::from_data_and_shape(words(vec![0., 1., 2., 3., 4., 5.]), vec![2, 3]);
    assert_eq!(f32::from_bits(t.idx(&vec![0, 0])), 0.);
    assert_eq!(f32::from_bits(t.idx(&vec![1, 2])), 5.);
    assert_eq!(f32::from_bits(t.idx(&vec![0, 2])), 2.);
}

#[test]
fn assign_out_of_range_leaves_tensor_untouched() {
    let mut t = CpuTensor::from_data_and_shape(words(vec![1., 2., 3., 4.]), vec![2, 2]);
    let before = t.as_contiguous_vec();
    let bounds = vec![SliceRangeInfo::new(2, Some(3), 1)];
    assert!(t.assign(&bounds, 0).is_err());
    assert_eq!(t.as_contiguous_vec(), before);
}
