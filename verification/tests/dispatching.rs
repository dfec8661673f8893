use tensor_compute::dispatch::{
    elementwise_binary_plan, eq_precheck, fill_plan, matmul_plan, reduce_plan,
    scalar_elementwise_plan, transpose_plan, unary_elementwise_plan, BufferKind,
};
use tensor_compute::{ShapeStrides, TensorError};

#[test]
fn elementwise_plan_binds_operands_then_output() {
    let left = ShapeStrides::from_shape_vec(vec![3, 2]);
    let right = ShapeStrides::from_shape_vec(vec![3, 2]);
    let plan = elementwise_binary_plan(&left, &right).unwrap();
    assert_eq!(plan.inputs.bindings.len(), 3);
    for (i, b) in plan.inputs.bindings.iter().enumerate() {
        assert_eq!(b.binding_id as usize, i);
        assert_eq!(b.kind, BufferKind::Storage);
        assert_eq!(b.buffer_index, i);
    }
    // rank, extents padded to 8, strides padded to 8, for each operand
    let words = &plan.inputs.push_constants.data;
    assert_eq!(words.len(), 34);
    assert_eq!(&words[0..4], &[2, 3, 2, 0]);
    assert_eq!(&words[9..12], &[2, 1, 0]);
    assert_eq!(&words[17..21], &[2, 3, 2, 0]);
    // one thread per output element, output sized from the output shape
    assert_eq!(plan.threads.x, 6);
    assert_eq!(plan.threads.y, 1);
    assert_eq!(plan.threads.z, 1);
    assert_eq!(plan.output_size_bytes, 24);
    assert_eq!(plan.output_shape, vec![3, 2]);
}

#[test]
fn elementwise_plan_rejects_differing_shapes() {
    let left = ShapeStrides::from_shape_vec(vec![3, 2]);
    let right = ShapeStrides::from_shape_vec(vec![2, 3]);
    assert_eq!(
        elementwise_binary_plan(&left, &right).err(),
        Some(TensorError::ShapeMismatch)
    );
}

#[test]
fn plans_reject_ranks_over_the_cap() {
    let d = ShapeStrides::from_shape_vec(vec![1, 1, 1, 1, 1, 1, 1, 1, 1]);
    assert_eq!(
        elementwise_binary_plan(&d, &d).err(),
        Some(TensorError::RankTooLarge)
    );
    assert_eq!(fill_plan(&d, 0).err(), Some(TensorError::RankTooLarge));
    assert_eq!(transpose_plan(&d).err(), Some(TensorError::RankTooLarge));
}

#[test]
fn matmul_broadcasts_second_operand_and_sizes_output() {
    // a batched operand against a plain matrix
    let left = ShapeStrides::from_shape_vec(vec![2, 2, 2]);
    let right = ShapeStrides::from_shape_vec(vec![2, 2]);
    let p = matmul_plan(&left, &right).unwrap();
    assert_eq!(p.plan.output_shape, vec![2, 2, 2]);
    assert!(!p.reduce_rank_after);
    assert_eq!(p.plan.threads.x, 8);
    assert_eq!(p.plan.output_size_bytes, 32);
    // the broadcast side reads every batch through stride 0
    let words = &p.plan.inputs.push_constants.data;
    assert_eq!(
        words,
        &vec![
            2, // batch
            4, 0, // batch strides: left real, right broadcast
            2, 2, // rows_a with stride
            2, 1, // cols_a with stride
            2, 2, // rows_b with stride
            2, 1, // cols_b with stride
        ]
    );
}

#[test]
fn matmul_of_two_matrices_reduces_rank_back() {
    let left = ShapeStrides::from_shape_vec(vec![2, 3]);
    let right = ShapeStrides::from_shape_vec(vec![3, 4]);
    let p = matmul_plan(&left, &right).unwrap();
    assert!(p.reduce_rank_after);
    assert_eq!(p.plan.output_shape, vec![1, 2, 4]);
    assert_eq!(p.plan.threads.x, 8);
}

#[test]
fn matmul_rejects_bad_operands() {
    // inner dimensions differ
    let left = ShapeStrides::from_shape_vec(vec![2, 3]);
    let right = ShapeStrides::from_shape_vec(vec![4, 2]);
    assert_eq!(
        matmul_plan(&left, &right).err(),
        Some(TensorError::ShapeMismatch)
    );
    // batches can not broadcast
    let left = ShapeStrides::from_shape_vec(vec![2, 2, 2]);
    let right = ShapeStrides::from_shape_vec(vec![3, 2, 2]);
    assert_eq!(
        matmul_plan(&left, &right).err(),
        Some(TensorError::BroadcastIncompatible { dim_a: 2, dim_b: 3 })
    );
    // a vector is not a matrix
    let left = ShapeStrides::from_shape_vec(vec![4]);
    let right = ShapeStrides::from_shape_vec(vec![4, 2]);
    assert_eq!(
        matmul_plan(&left, &right).err(),
        Some(TensorError::ShapeMismatch)
    );
}

#[test]
fn transpose_plan_swaps_the_last_two_extents() {
    let d = ShapeStrides::from_shape_vec(vec![1, 2, 2, 3]);
    let p = transpose_plan(&d).unwrap();
    assert_eq!(p.output_shape, vec![1, 2, 3, 2]);
    assert_eq!(p.threads.x, 12);
    assert_eq!(p.output_size_bytes, 48);
    assert_eq!(p.inputs.bindings.len(), 2);
}

#[test]
fn fill_plan_writes_in_place() {
    let d = ShapeStrides::from_shape_vec(vec![3, 2]);
    let p = fill_plan(&d, 42).unwrap();
    assert_eq!(p.output_size_bytes, 0);
    assert_eq!(p.inputs.bindings.len(), 1);
    assert_eq!(p.threads.x, 6);
    let words = &p.inputs.push_constants.data;
    assert_eq!(words.len(), 18);
    assert_eq!(words[17], 42);
}

#[test]
fn eq_precheck_short_circuits() {
    let empty = ShapeStrides::from_shape_vec(vec![]);
    let a = ShapeStrides::from_shape_vec(vec![2, 2]);
    let b = ShapeStrides::from_shape_vec(vec![2, 2]);
    let c = ShapeStrides::from_shape_vec(vec![4]);
    assert_eq!(eq_precheck(&empty, &empty), Some(true));
    assert_eq!(eq_precheck(&empty, &a), Some(false));
    assert_eq!(eq_precheck(&a, &c), Some(false));
    assert_eq!(eq_precheck(&a, &b), None);
}

#[test]
fn scalar_plan_appends_the_scalar_word() {
    let d = ShapeStrides::from_shape_vec(vec![2, 2]);
    let p = scalar_elementwise_plan(&d, 7).unwrap();
    assert_eq!(p.inputs.bindings.len(), 2);
    let words = &p.inputs.push_constants.data;
    assert_eq!(words.len(), 18);
    assert_eq!(words[17], 7);
    assert_eq!(p.threads.x, 4);
    assert_eq!(p.output_shape, vec![2, 2]);
}

#[test]
fn unary_plan_mirrors_the_input_shape() {
    let d = ShapeStrides::from_shape_vec(vec![3, 2]);
    let p = unary_elementwise_plan(&d).unwrap();
    assert_eq!(p.inputs.bindings.len(), 2);
    assert_eq!(p.inputs.push_constants.data.len(), 17);
    assert_eq!(p.threads.x, 6);
    assert_eq!(p.output_size_bytes, 24);
    assert_eq!(p.output_shape, vec![3, 2]);
}

#[test]
fn reduce_plan_launches_one_thread_for_one_output_element() {
    let d = ShapeStrides::from_shape_vec(vec![2, 3, 4]);
    let p = reduce_plan(&d).unwrap();
    assert_eq!(p.threads.x, 1);
    assert_eq!(p.output_size_bytes, 4);
    assert_eq!(p.output_shape, vec![1]);
}
