use vstd::prelude::*;
use crate::broadcast::{broadcast_shape_and_stride, extents_compatible};
use crate::error::TensorError;
use crate::shape::{spec_numel, suffix_products_fit, ShapeStrides};

verus! {

/// Highest rank the fixed-size packed parameter block can describe.
pub const MAX_PACK_RANK: usize = 8;

/// Thread-group dimensions of one kernel dispatch. Element-wise kernels
/// launch one thread per output element in `x`; reducing kernels launch a
/// single thread.
pub struct ThreadGroup {
    pub x: usize,
    pub y: usize,
    pub z: usize,
}

/// The small parameter block handed to a kernel alongside its bindings: a
/// byte offset into the push range and the packed words.
pub struct PushConstants {
    pub offset: u32,
    pub data: Vec<u32>,
}

/// What a binding refers to: a storage buffer (tensor data) or a small
/// uniform block. The buffer itself is named by an index into the caller's
/// table of device buffers.
#[derive(Clone, Copy, Debug, PartialEq, Eq)]
pub enum BufferKind {
    Storage,
    Uniform,
}

/// One slot of a kernel's binding layout.
pub struct ShaderBinding {
    pub binding_id: u32,
    pub kind: BufferKind,
    pub buffer_index: usize,
}

/// The bound inputs of one dispatch: bindings in declaration order and the
/// packed parameter block.
pub struct ShaderInputs {
    pub bindings: Vec<ShaderBinding>,
    pub push_constants: PushConstants,
}

impl ShaderInputs {
    /// Binding ids are assigned monotonically: slot `i` carries id `i`.
    pub open spec fn sequential(&self) -> bool {
        forall|i: int|
            0 <= i < self.bindings@.len() ==> #[trigger] self.bindings@[i].binding_id == i
    }

    /// An empty input set.
    pub fn new() -> (r: ShaderInputs)
        ensures
            r.sequential(),
            r.bindings@.len() == 0,
            r.push_constants.data@.len() == 0,
            r.push_constants.offset == 0,
    {
        ShaderInputs {
            bindings: Vec::new(),
            push_constants: PushConstants { offset: 0, data: Vec::new() },
        }
    }

    /// Appends a buffer as the next binding; its id is the slot it lands in.
    pub fn append_buffer(&mut self, kind: BufferKind, buffer_index: usize)
        requires
            old(self).bindings@.len() < u32::MAX,
        ensures
            final(self).bindings@.len() == old(self).bindings@.len() + 1,
            final(self).bindings@ == old(self).bindings@.push(
                ShaderBinding {
                    binding_id: old(self).bindings@.len() as u32,
                    kind,
                    buffer_index,
                },
            ),
            final(self).push_constants == old(self).push_constants,
            old(self).sequential() ==> final(self).sequential(),
    {
        let id = self.bindings.len() as u32;
        self.bindings.push(ShaderBinding { binding_id: id, kind, buffer_index });
    }
}

/// The packed parameter block a descriptor contributes, in the kernel
/// calling convention's order: the rank, then the extents padded with zeros
/// to the rank cap, then the strides padded alike.
pub open spec fn packed_words(shape: Seq<usize>, strides: Seq<usize>) -> Seq<u32> {
    seq![shape.len() as u32] + Seq::new(
        MAX_PACK_RANK as nat,
        |i: int|
            if i < shape.len() {
                shape[i] as u32
            } else {
                0
            },
    ) + Seq::new(
        MAX_PACK_RANK as nat,
        |i: int|
            if i < strides.len() {
                strides[i] as u32
            } else {
                0
            },
    )
}

/// Every extent and stride fits one packed word.
pub open spec fn packable(shape: Seq<usize>, strides: Seq<usize>) -> bool {
    &&& forall|i: int| 0 <= i < shape.len() ==> #[trigger] shape[i] <= u32::MAX
    &&& forall|i: int| 0 <= i < strides.len() ==> #[trigger] strides[i] <= u32::MAX
}

/// Packs a descriptor for the parameter block. Fails with
/// [`TensorError::RankTooLarge`] when the rank exceeds the cap.
pub fn pack_shape_strides(d: &ShapeStrides, out: &mut Vec<u32>) -> (r: Result<(), TensorError>)
    requires
        d.wf(),
        packable(d.shape@, d.strides@),
        old(out)@.len() + 17 <= usize::MAX,
    ensures
        r is Ok <==> d.shape@.len() <= MAX_PACK_RANK,
        r matches Err(e) ==> e == TensorError::RankTooLarge && final(out)@ == old(out)@,
        r is Ok ==> final(out)@ == old(out)@ + packed_words(d.shape@, d.strides@),
{
    let rank = d.shape.len();
    if rank > MAX_PACK_RANK {
        return Err(TensorError::RankTooLarge);
    }
    out.push(rank as u32);
    for i in 0..MAX_PACK_RANK
        invariant
            rank == d.shape@.len(),
            rank <= MAX_PACK_RANK,
            packable(d.shape@, d.strides@),
            out@.len() == old(out)@.len() + 1 + i,
            out@ == old(out)@ + seq![rank as u32] + Seq::new(
                i as nat,
                |j: int|
                    if j < d.shape@.len() {
                        d.shape@[j] as u32
                    } else {
                        0
                    },
            ),
    {
        let w: u32 = if i < rank {
            d.shape[i] as u32
        } else {
            0
        };
        out.push(w);
        proof {
            assert(out@ =~= old(out)@ + seq![rank as u32] + Seq::new(
                (i + 1) as nat,
                |j: int|
                    if j < d.shape@.len() {
                        d.shape@[j] as u32
                    } else {
                        0
                    },
            ));
        }
    }
    for i in 0..MAX_PACK_RANK
        invariant
            rank == d.shape@.len(),
            rank == d.strides@.len(),
            rank <= MAX_PACK_RANK,
            packable(d.shape@, d.strides@),
            out@.len() == old(out)@.len() + 9 + i,
            out@ == old(out)@ + seq![rank as u32] + Seq::new(
                MAX_PACK_RANK as nat,
                |j: int|
                    if j < d.shape@.len() {
                        d.shape@[j] as u32
                    } else {
                        0
                    },
            ) + Seq::new(
                i as nat,
                |j: int|
                    if j < d.strides@.len() {
                        d.strides@[j] as u32
                    } else {
                        0
                    },
            ),
    {
        let w: u32 = if i < rank {
            d.strides[i] as u32
        } else {
            0
        };
        out.push(w);
        proof {
            assert(out@ =~= old(out)@ + seq![rank as u32] + Seq::new(
                MAX_PACK_RANK as nat,
                |j: int|
                    if j < d.shape@.len() {
                        d.shape@[j] as u32
                    } else {
                        0
                    },
            ) + Seq::new(
                (i + 1) as nat,
                |j: int|
                    if j < d.strides@.len() {
                        d.strides@[j] as u32
                    } else {
                        0
                    },
            ));
        }
    }
    proof {
        assert(out@ =~= old(out)@ + packed_words(d.shape@, d.strides@));
    }
    Ok(())
}

/// Everything the dispatcher decides before submitting one kernel: the
/// binding layout (operands first, in order, the output storage buffer
/// last), the packed parameters, the thread-group size, the byte size of
/// the output buffer to allocate, and the shape of the result tensor.
pub struct DispatchPlan {
    pub inputs: ShaderInputs,
    pub output_size_bytes: usize,
    pub threads: ThreadGroup,
    pub output_shape: Vec<usize>,
}

/// Plans an element-wise binary kernel (add, sub, dot-mul, dot-div): both
/// operands must have identical extents; the output is a fresh contiguous
/// buffer of the same shape, one thread per element. Operand strides travel
/// in the parameter block so the kernel can read through arbitrary
/// (including broadcast) strides.
pub fn elementwise_binary_plan(left: &ShapeStrides, right: &ShapeStrides) -> (r: Result<
    DispatchPlan,
    TensorError,
>)
    requires
        left.wf(),
        right.wf(),
        suffix_products_fit(left.shape@),
        packable(left.shape@, left.strides@),
        packable(right.shape@, right.strides@),
        4 * spec_numel(left.shape@) <= usize::MAX,
    ensures
        r is Ok <==> left.shape@ == right.shape@ && left.shape@.len() <= MAX_PACK_RANK,
        r matches Err(e) ==> (e == TensorError::ShapeMismatch <==> left.shape@ != right.shape@)
            && (e == TensorError::RankTooLarge <==> left.shape@ == right.shape@),
        r matches Ok(p) ==> {
            &&& p.inputs.sequential()
            &&& p.inputs.bindings@.len() == 3
            &&& p.inputs.bindings@[0].kind == BufferKind::Storage
            &&& p.inputs.bindings@[0].buffer_index == 0
            &&& p.inputs.bindings@[1].kind == BufferKind::Storage
            &&& p.inputs.bindings@[1].buffer_index == 1
            &&& p.inputs.bindings@[2].kind == BufferKind::Storage
            &&& p.inputs.bindings@[2].buffer_index == 2
            &&& p.inputs.push_constants.data@ == packed_words(left.shape@, left.strides@)
                + packed_words(right.shape@, right.strides@)
            &&& p.threads.x == spec_numel(left.shape@)
            &&& p.threads.y == 1 && p.threads.z == 1
            &&& p.output_size_bytes == 4 * spec_numel(left.shape@)
            &&& p.output_shape@ == left.shape@
        },
{
    if left.shape.len() != right.shape.len() {
        proof {
            assert(left.shape@ != right.shape@);
        }
        return Err(TensorError::ShapeMismatch);
    }
    let rank = left.shape.len();
    for i in 0..rank
        invariant
            rank == left.shape@.len(),
            rank == right.shape@.len(),
            forall|j: int| 0 <= j < i ==> #[trigger] left.shape@[j] == right.shape@[j],
    {
        if left.shape[i] != right.shape[i] {
            proof {
                assert(left.shape@ != right.shape@);
            }
            return Err(TensorError::ShapeMismatch);
        }
    }
    proof {
        assert(left.shape@ =~= right.shape@);
    }
    let mut inputs = ShaderInputs::new();
    match pack_shape_strides(left, &mut inputs.push_constants.data) {
        Err(e) => {
            return Err(e);
        },
        Ok(()) => {},
    }
    match pack_shape_strides(right, &mut inputs.push_constants.data) {
        Err(e) => {
            return Err(e);
        },
        Ok(()) => {},
    }
    inputs.append_buffer(BufferKind::Storage, 0);
    inputs.append_buffer(BufferKind::Storage, 1);
    inputs.append_buffer(BufferKind::Storage, 2);
    let numel = left.numel();
    Ok(
        DispatchPlan {
            inputs,
            output_size_bytes: 4 * numel,
            threads: ThreadGroup { x: numel, y: 1, z: 1 },
            output_shape: left.shape.clone(),
        },
    )
}

/// Decides tensor equality without a kernel where possible: two descriptors
/// of no elements are equal; differing extents make the tensors unequal;
/// otherwise the element-compare kernel must run.
pub fn eq_precheck(a: &ShapeStrides, b: &ShapeStrides) -> (r: Option<bool>)
    ensures
        a.shape@.len() == 0 || b.shape@.len() == 0 ==> r == Some(
            a.shape@.len() == 0 && b.shape@.len() == 0,
        ),
        a.shape@.len() > 0 && b.shape@.len() > 0 && a.shape@ != b.shape@ ==> r == Some(false),
        a.shape@.len() > 0 && b.shape@.len() > 0 && a.shape@ == b.shape@ ==> r is None,
{
    if a.shape.len() == 0 || b.shape.len() == 0 {
        return Some(a.shape.len() == 0 && b.shape.len() == 0);
    }
    if a.shape.len() != b.shape.len() {
        proof {
            assert(a.shape@ != b.shape@);
        }
        return Some(false);
    }
    let rank = a.shape.len();
    for i in 0..rank
        invariant
            rank == a.shape@.len(),
            rank == b.shape@.len(),
            rank > 0,
            forall|j: int| 0 <= j < i ==> #[trigger] a.shape@[j] == b.shape@[j],
    {
        if a.shape[i] != b.shape[i] {
            proof {
                assert(a.shape@ != b.shape@);
            }
            return Some(false);
        }
    }
    proof {
        assert(a.shape@ =~= b.shape@);
    }
    None
}

/// The shape a plain matrix is temporarily promoted to for batched matrix
/// multiply: a leading batch extent of 1. Higher ranks stay as they are.
pub open spec fn promoted_shape(s: Seq<usize>) -> Seq<usize> {
    if s.len() == 2 {
        seq![1usize] + s
    } else {
        s
    }
}

/// The strides of a promoted matrix: the leading phantom batch dimension
/// carries stride 0.
pub open spec fn promoted_strides(s: Seq<usize>, st: Seq<usize>) -> Seq<usize> {
    if s.len() == 2 {
        seq![0usize] + st
    } else {
        st
    }
}

/// Batched matrix multiply accepts the operands: both at rank 3 after
/// promotion, batch extents broadcastable, and the left operand's columns
/// equal to the right operand's rows.
pub open spec fn matmul_ok(l: Seq<usize>, r: Seq<usize>) -> bool {
    &&& promoted_shape(l).len() == 3
    &&& promoted_shape(r).len() == 3
    &&& extents_compatible(promoted_shape(l)[0] as int, promoted_shape(r)[0] as int)
    &&& promoted_shape(l)[2] == promoted_shape(r)[1]
}

/// The batch extent both operands share after broadcasting.
pub open spec fn matmul_batch(l: Seq<usize>, r: Seq<usize>) -> int {
    if promoted_shape(l)[0] == 1 {
        promoted_shape(r)[0] as int
    } else {
        promoted_shape(l)[0] as int
    }
}

/// The result shape of a batched matrix multiply: the shared batch, the
/// left operand's rows, the right operand's columns.
pub open spec fn matmul_output_shape(l: Seq<usize>, r: Seq<usize>) -> Seq<usize> {
    seq![matmul_batch(l, r) as usize, promoted_shape(l)[1], promoted_shape(r)[2]]
}

/// The matmul kernel's parameter block: the batch extent, both batch
/// strides (0 on a broadcast side), then extent and stride of each matrix
/// dimension of both operands.
pub open spec fn matmul_push_words(
    ls: Seq<usize>,
    lst: Seq<usize>,
    rs: Seq<usize>,
    rst: Seq<usize>,
) -> Seq<u32> {
    let pl = promoted_shape(ls);
    let plst = promoted_strides(ls, lst);
    let pr = promoted_shape(rs);
    let prst = promoted_strides(rs, rst);
    seq![
        matmul_batch(ls, rs) as u32,
        (if pl[0] == 1 && pr[0] != 1 {
            0
        } else {
            plst[0]
        }) as u32,
        (if pr[0] == 1 && pl[0] != 1 {
            0
        } else {
            prst[0]
        }) as u32,
        pl[1] as u32,
        plst[1] as u32,
        pl[2] as u32,
        plst[2] as u32,
        pr[1] as u32,
        prst[1] as u32,
        pr[2] as u32,
        prst[2] as u32,
    ]
}

/// A planned batched matrix multiply: the dispatch itself, and whether the
/// caller should drop the leading batch dimension of the result because
/// both inputs came in as plain matrices.
pub struct MatmulPlan {
    pub plan: DispatchPlan,
    pub reduce_rank_after: bool,
}

/// Plans a batched matrix multiply. Plain matrices are promoted to rank 3
/// with a phantom batch; the batch dimension is broadcast (the two matrix
/// dimensions are excluded from broadcasting); the inner dimensions must
/// agree. The output is a fresh contiguous buffer of shape
/// `[batch, rows_left, cols_right]`, one thread per output element.
/// Operands of a rank other than 2 or 3, or with unequal inner dimensions,
/// fail with [`TensorError::ShapeMismatch`]; incompatible batch extents
/// fail with [`TensorError::BroadcastIncompatible`]. Nothing is submitted
/// on any failure.
pub fn matmul_plan(left: &ShapeStrides, right: &ShapeStrides) -> (res: Result<
    MatmulPlan,
    TensorError,
>)
    requires
        left.wf(),
        right.wf(),
        matmul_ok(left.shape@, right.shape@) ==> {
            &&& packable(promoted_shape(left.shape@), promoted_strides(left.shape@, left.strides@))
            &&& packable(
                promoted_shape(right.shape@),
                promoted_strides(right.shape@, right.strides@),
            )
            &&& matmul_batch(left.shape@, right.shape@) * promoted_shape(left.shape@)[1]
                <= usize::MAX
            &&& 4 * (matmul_batch(left.shape@, right.shape@) * promoted_shape(left.shape@)[1]
                * promoted_shape(right.shape@)[2]) <= usize::MAX
        },
    ensures
        res is Ok <==> matmul_ok(left.shape@, right.shape@),
        res matches Err(e) ==> {
            if promoted_shape(left.shape@).len() != 3 || promoted_shape(right.shape@).len() != 3 {
                e == TensorError::ShapeMismatch
            } else if !extents_compatible(
                promoted_shape(left.shape@)[0] as int,
                promoted_shape(right.shape@)[0] as int,
            ) {
                e matches TensorError::BroadcastIncompatible { .. }
            } else {
                e == TensorError::ShapeMismatch
            }
        },
        res matches Ok(p) ==> {
            &&& p.reduce_rank_after == (left.shape@.len() == 2 && right.shape@.len() == 2)
            &&& p.plan.output_shape@ == matmul_output_shape(left.shape@, right.shape@)
            &&& p.plan.inputs.sequential()
            &&& p.plan.inputs.bindings@.len() == 3
            &&& (forall|i: int|
                0 <= i < 3 ==> #[trigger] p.plan.inputs.bindings@[i].kind == BufferKind::Storage
                    && p.plan.inputs.bindings@[i].buffer_index == i)
            &&& p.plan.inputs.push_constants.data@ == matmul_push_words(
                left.shape@,
                left.strides@,
                right.shape@,
                right.strides@,
            )
            &&& p.plan.threads.x == matmul_batch(left.shape@, right.shape@) * promoted_shape(
                left.shape@,
            )[1] * promoted_shape(right.shape@)[2]
            &&& p.plan.threads.y == 1 && p.plan.threads.z == 1
            &&& p.plan.output_size_bytes == 4 * p.plan.threads.x
            &&& spec_numel(p.plan.output_shape@) == p.plan.threads.x
        },
{
    let lrank = left.shape.len();
    let rrank = right.shape.len();
    if lrank < 2 || lrank > 3 || rrank < 2 || rrank > 3 {
        return Err(TensorError::ShapeMismatch);
    }
    let mut a2 = left.clone();
    if lrank == 2 {
        a2.increase_rank();
    }
    let mut b2 = right.clone();
    if rrank == 2 {
        b2.increase_rank();
    }
    proof {
        assert(a2.shape@ == promoted_shape(left.shape@));
        assert(a2.strides@ == promoted_strides(left.shape@, left.strides@));
        assert(b2.shape@ == promoted_shape(right.shape@));
        assert(b2.strides@ == promoted_strides(right.shape@, right.strides@));
    }
    let bc = broadcast_shape_and_stride(&a2, &b2, Some(2));
    let ghost pl = promoted_shape(left.shape@);
    let ghost plst = promoted_strides(left.shape@, left.strides@);
    let ghost pr = promoted_shape(right.shape@);
    let ghost prst = promoted_strides(right.shape@, right.strides@);
    proof {
        assert(crate::broadcast::broadcast_rank(a2.shape@, b2.shape@) == 3);
        assert(crate::broadcast::broadcast_window(a2.shape@, b2.shape@, 2) == 1);
        assert(crate::broadcast::aligned_extent(a2.shape@, 3, 0) == pl[0]);
        assert(crate::broadcast::aligned_extent(b2.shape@, 3, 0) == pr[0]);
        assert(crate::broadcast::compat_at(a2.shape@, b2.shape@, 0) == extents_compatible(
            pl[0] as int,
            pr[0] as int,
        ));
        assert(crate::broadcast::broadcast_ok(a2.shape@, b2.shape@, 2) <==> extents_compatible(
            pl[0] as int,
            pr[0] as int,
        )) by {
            if crate::broadcast::compat_at(a2.shape@, b2.shape@, 0) {
                assert forall|i: int| 0 <= i < 1 implies #[trigger] crate::broadcast::compat_at(
                    a2.shape@,
                    b2.shape@,
                    i,
                ) by {}
            }
        }
    }
    let (x, y) = match bc {
        Err(e) => {
            return Err(e);
        },
        Ok(xy) => xy,
    };
    proof {
        assert forall|i: int| 0 <= i < 3 implies #[trigger] crate::broadcast::aligned_extent(
            a2.shape@,
            3,
            i,
        ) == pl[i] && crate::broadcast::aligned_extent(b2.shape@, 3, i) == pr[i]
            && crate::broadcast::aligned_stride(a2.strides@, 3, i) == plst[i]
            && crate::broadcast::aligned_stride(b2.strides@, 3, i) == prst[i] by {}
        assert(x.shape@[0] == crate::broadcast::broadcast_extent(a2.shape@, b2.shape@, 0));
        assert(x.shape@[0] == matmul_batch(left.shape@, right.shape@));
        assert(y.shape@[1] == pr[1] && x.shape@[1] == pl[1] && x.shape@[2] == pl[2] && y.shape@[2]
            == pr[2]);
    }
    if x.shape[2] != y.shape[1] {
        return Err(TensorError::ShapeMismatch);
    }
    let batch = x.shape[0];
    let rows_a = x.shape[1];
    let cols_b = y.shape[2];
    let mut words: Vec<u32> = Vec::new();
    words.push(batch as u32);
    words.push(x.strides[0] as u32);
    words.push(y.strides[0] as u32);
    words.push(x.shape[1] as u32);
    words.push(x.strides[1] as u32);
    words.push(x.shape[2] as u32);
    words.push(x.strides[2] as u32);
    words.push(y.shape[1] as u32);
    words.push(y.strides[1] as u32);
    words.push(y.shape[2] as u32);
    words.push(y.strides[2] as u32);
    proof {
        assert(words@ =~= matmul_push_words(
            left.shape@,
            left.strides@,
            right.shape@,
            right.strides@,
        ));
    }
    let mut inputs = ShaderInputs { bindings: Vec::new(), push_constants: PushConstants { offset: 0, data: words } };
    inputs.append_buffer(BufferKind::Storage, 0);
    inputs.append_buffer(BufferKind::Storage, 1);
    inputs.append_buffer(BufferKind::Storage, 2);
    let nb = batch * rows_a * cols_b;
    let output_shape = vec![batch, rows_a, cols_b];
    proof {
        assert(output_shape@ =~= matmul_output_shape(left.shape@, right.shape@));
        assert(spec_numel(output_shape@) == batch * rows_a * cols_b) by {
            crate::shape::lemma_product_unfold(output_shape@, 0);
            crate::shape::lemma_product_unfold(output_shape@.skip(1), 0);
            assert(output_shape@.skip(1).skip(1) =~= output_shape@.skip(2));
            crate::shape::lemma_product_unfold(output_shape@.skip(2), 0);
            assert(output_shape@.skip(2).skip(1) =~= Seq::<usize>::empty());
            assert(output_shape@.skip(1)[0] == rows_a && output_shape@.skip(2)[0] == cols_b);
            assert(batch * (rows_a * (cols_b * 1)) == batch * rows_a * cols_b) by (nonlinear_arith);
        }
    }
    Ok(
        MatmulPlan {
            plan: DispatchPlan {
                inputs,
                output_size_bytes: 4 * nb,
                threads: ThreadGroup { x: nb, y: 1, z: 1 },
                output_shape,
            },
            reduce_rank_after: lrank == 2 && rrank == 2,
        },
    )
}

/// Plans the transpose kernel: the result is a fresh contiguous buffer over
/// the shape with the last two extents exchanged, one thread per element;
/// the kernel reads the input through its own strides from the parameter
/// block.
pub fn transpose_plan(d: &ShapeStrides) -> (r: Result<DispatchPlan, TensorError>)
    requires
        d.wf(),
        d.shape@.len() >= 2,
        suffix_products_fit(d.shape@),
        packable(d.shape@, d.strides@),
        4 * spec_numel(d.shape@) <= usize::MAX,
    ensures
        r is Ok <==> d.shape@.len() <= MAX_PACK_RANK,
        r matches Err(e) ==> e == TensorError::RankTooLarge,
        r matches Ok(p) ==> {
            &&& p.inputs.sequential()
            &&& p.inputs.bindings@.len() == 2
            &&& p.inputs.bindings@[0].kind == BufferKind::Storage
            &&& p.inputs.bindings@[0].buffer_index == 0
            &&& p.inputs.bindings@[1].kind == BufferKind::Storage
            &&& p.inputs.bindings@[1].buffer_index == 1
            &&& p.inputs.push_constants.data@ == packed_words(d.shape@, d.strides@)
            &&& p.threads.x == spec_numel(d.shape@)
            &&& p.threads.y == 1 && p.threads.z == 1
            &&& p.output_size_bytes == 4 * spec_numel(d.shape@)
            &&& p.output_shape@ == crate::host::swap_last_two(d.shape@)
        },
{
    let mut inputs = ShaderInputs::new();
    match pack_shape_strides(d, &mut inputs.push_constants.data) {
        Err(e) => {
            return Err(e);
        },
        Ok(()) => {},
    }
    inputs.append_buffer(BufferKind::Storage, 0);
    inputs.append_buffer(BufferKind::Storage, 1);
    let rank = d.shape.len();
    let mut output_shape = d.shape.clone();
    let a = output_shape[rank - 2];
    let b = output_shape[rank - 1];
    output_shape.set(rank - 2, b);
    output_shape.set(rank - 1, a);
    proof {
        assert(output_shape@ =~= crate::host::swap_last_two(d.shape@));
    }
    let numel = d.numel();
    Ok(
        DispatchPlan {
            inputs,
            output_size_bytes: 4 * numel,
            threads: ThreadGroup { x: numel, y: 1, z: 1 },
            output_shape,
        },
    )
}

/// Plans the in-place fill kernel over a (possibly sliced) view: the view's
/// own buffer is the only storage binding, the value travels as the last
/// parameter word, and one thread runs per addressed element. No output
/// buffer is allocated.
pub fn fill_plan(view: &ShapeStrides, value_word: u32) -> (r: Result<DispatchPlan, TensorError>)
    requires
        view.wf(),
        suffix_products_fit(view.shape@),
        packable(view.shape@, view.strides@),
    ensures
        r is Ok <==> view.shape@.len() <= MAX_PACK_RANK,
        r matches Err(e) ==> e == TensorError::RankTooLarge,
        r matches Ok(p) ==> {
            &&& p.inputs.sequential()
            &&& p.inputs.bindings@.len() == 1
            &&& p.inputs.bindings@[0].kind == BufferKind::Storage
            &&& p.inputs.bindings@[0].buffer_index == 0
            &&& p.inputs.push_constants.data@ == packed_words(view.shape@, view.strides@).push(
                value_word,
            )
            &&& p.threads.x == spec_numel(view.shape@)
            &&& p.threads.y == 1 && p.threads.z == 1
            &&& p.output_size_bytes == 0
            &&& p.output_shape@ == view.shape@
        },
{
    let mut inputs = ShaderInputs::new();
    match pack_shape_strides(view, &mut inputs.push_constants.data) {
        Err(e) => {
            return Err(e);
        },
        Ok(()) => {},
    }
    inputs.push_constants.data.push(value_word);
    proof {
        assert(inputs.push_constants.data@ =~= packed_words(view.shape@, view.strides@).push(
            value_word,
        ));
    }
    inputs.append_buffer(BufferKind::Storage, 0);
    let numel = view.numel();
    Ok(
        DispatchPlan {
            inputs,
            output_size_bytes: 0,
            threads: ThreadGroup { x: numel, y: 1, z: 1 },
            output_shape: view.shape.clone(),
        },
    )
}

/// Plans a unary element-wise kernel (exponential, logarithm, copy): the
/// input is read through its own strides and the output is a fresh
/// contiguous buffer of the same shape, one thread per element.
pub fn unary_elementwise_plan(d: &ShapeStrides) -> (r: Result<DispatchPlan, TensorError>)
    requires
        d.wf(),
        suffix_products_fit(d.shape@),
        packable(d.shape@, d.strides@),
        4 * spec_numel(d.shape@) <= usize::MAX,
    ensures
        r is Ok <==> d.shape@.len() <= MAX_PACK_RANK,
        r matches Err(e) ==> e == TensorError::RankTooLarge,
        r matches Ok(p) ==> {
            &&& p.inputs.sequential()
            &&& p.inputs.bindings@.len() == 2
            &&& p.inputs.bindings@[0].kind == BufferKind::Storage
            &&& p.inputs.bindings@[0].buffer_index == 0
            &&& p.inputs.bindings@[1].kind == BufferKind::Storage
            &&& p.inputs.bindings@[1].buffer_index == 1
            &&& p.inputs.push_constants.data@ == packed_words(d.shape@, d.strides@)
            &&& p.threads.x == spec_numel(d.shape@)
            &&& p.threads.y == 1 && p.threads.z == 1
            &&& p.output_size_bytes == 4 * spec_numel(d.shape@)
            &&& p.output_shape@ == d.shape@
        },
{
    let mut inputs = ShaderInputs::new();
    match pack_shape_strides(d, &mut inputs.push_constants.data) {
        Err(e) => {
            return Err(e);
        },
        Ok(()) => {},
    }
    inputs.append_buffer(BufferKind::Storage, 0);
    inputs.append_buffer(BufferKind::Storage, 1);
    let numel = d.numel();
    Ok(
        DispatchPlan {
            inputs,
            output_size_bytes: 4 * numel,
            threads: ThreadGroup { x: numel, y: 1, z: 1 },
            output_shape: d.shape.clone(),
        },
    )
}

/// Plans an element-wise kernel against one scalar operand (add, subtract,
/// multiply, divide by a scalar): like the unary plan, with the scalar
/// riding as the last parameter word.
pub fn scalar_elementwise_plan(d: &ShapeStrides, scalar_word: u32) -> (r: Result<
    DispatchPlan,
    TensorError,
>)
    requires
        d.wf(),
        suffix_products_fit(d.shape@),
        packable(d.shape@, d.strides@),
        4 * spec_numel(d.shape@) <= usize::MAX,
    ensures
        r is Ok <==> d.shape@.len() <= MAX_PACK_RANK,
        r matches Err(e) ==> e == TensorError::RankTooLarge,
        r matches Ok(p) ==> {
            &&& p.inputs.sequential()
            &&& p.inputs.bindings@.len() == 2
            &&& p.inputs.bindings@[0].kind == BufferKind::Storage
            &&& p.inputs.bindings@[0].buffer_index == 0
            &&& p.inputs.bindings@[1].kind == BufferKind::Storage
            &&& p.inputs.bindings@[1].buffer_index == 1
            &&& p.inputs.push_constants.data@ == packed_words(d.shape@, d.strides@).push(
                scalar_word,
            )
            &&& p.threads.x == spec_numel(d.shape@)
            &&& p.threads.y == 1 && p.threads.z == 1
            &&& p.output_size_bytes == 4 * spec_numel(d.shape@)
            &&& p.output_shape@ == d.shape@
        },
{
    let mut inputs = ShaderInputs::new();
    match pack_shape_strides(d, &mut inputs.push_constants.data) {
        Err(e) => {
            return Err(e);
        },
        Ok(()) => {},
    }
    inputs.push_constants.data.push(scalar_word);
    proof {
        assert(inputs.push_constants.data@ =~= packed_words(d.shape@, d.strides@).push(
            scalar_word,
        ));
    }
    inputs.append_buffer(BufferKind::Storage, 0);
    inputs.append_buffer(BufferKind::Storage, 1);
    let numel = d.numel();
    Ok(
        DispatchPlan {
            inputs,
            output_size_bytes: 4 * numel,
            threads: ThreadGroup { x: numel, y: 1, z: 1 },
            output_shape: d.shape.clone(),
        },
    )
}

/// Plans a reducing kernel (sum): a single thread folds the whole input
/// serially inside the kernel, and the output is a single element.
pub fn reduce_plan(d: &ShapeStrides) -> (r: Result<DispatchPlan, TensorError>)
    requires
        d.wf(),
        packable(d.shape@, d.strides@),
    ensures
        r is Ok <==> d.shape@.len() <= MAX_PACK_RANK,
        r matches Err(e) ==> e == TensorError::RankTooLarge,
        r matches Ok(p) ==> {
            &&& p.inputs.sequential()
            &&& p.inputs.bindings@.len() == 2
            &&& p.inputs.bindings@[0].kind == BufferKind::Storage
            &&& p.inputs.bindings@[0].buffer_index == 0
            &&& p.inputs.bindings@[1].kind == BufferKind::Storage
            &&& p.inputs.bindings@[1].buffer_index == 1
            &&& p.inputs.push_constants.data@ == packed_words(d.shape@, d.strides@)
            &&& p.threads.x == 1 && p.threads.y == 1 && p.threads.z == 1
            &&& p.output_size_bytes == 4
            &&& p.output_shape@ == seq![1usize]
        },
{
    let mut inputs = ShaderInputs::new();
    match pack_shape_strides(d, &mut inputs.push_constants.data) {
        Err(e) => {
            return Err(e);
        },
        Ok(()) => {},
    }
    inputs.append_buffer(BufferKind::Storage, 0);
    inputs.append_buffer(BufferKind::Storage, 1);
    let output_shape = vec![1usize];
    proof {
        assert(output_shape@ =~= seq![1usize]);
    }
    Ok(
        DispatchPlan {
            inputs,
            output_size_bytes: 4,
            threads: ThreadGroup { x: 1, y: 1, z: 1 },
            output_shape,
        },
    )
}

/// Law: the shape rule of batched matrix multiply. A plain matrix on either
/// side is promoted to a single batch; acceptance and the result's extents
/// are those of the promoted operands; the result has exactly the shared
/// batch, the left rows and the right columns.
pub proof fn lemma_matmul_shape_rule(l: Seq<usize>, r: Seq<usize>)
    requires
        matmul_ok(l, r),
    ensures
        matmul_output_shape(l, r).len() == 3,
        matmul_output_shape(l, r)[0] == matmul_batch(l, r),
        matmul_output_shape(l, r)[1] == promoted_shape(l)[1],
        matmul_output_shape(l, r)[2] == promoted_shape(r)[2],
        promoted_shape(l)[0] == 1 ==> matmul_batch(l, r) == promoted_shape(r)[0],
        promoted_shape(r)[0] == 1 && promoted_shape(l)[0] != 1 ==> matmul_batch(l, r)
            == promoted_shape(l)[0],
        l.len() == 3 && r.len() == 2 ==> matmul_batch(l, r) == l[0],
{
    if l.len() == 3 && r.len() == 2 {
        assert(promoted_shape(r)[0] == 1);
        if promoted_shape(l)[0] == 1 {
            assert(matmul_batch(l, r) == 1);
        }
    }
}

} // verus!
