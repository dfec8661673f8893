use vstd::prelude::*;
use crate::error::TensorError;
use crate::indexing::{
    bounds_all_wf, lemma_slice_keeps_buffer, lemma_slice_preserves_fit, shape_strides_for_slice_range,
    slice_bounds_ok, slice_offset_delta, sliced_offset, sliced_shape, sliced_strides, SliceRangeInfo,
};
use crate::linear::{
    dot_prefix, lemma_dot_prefix_bounds, lemma_dot_prefix_congruence, lemma_dot_prefix_contiguous,
    lemma_max_span_congruence, lemma_max_span_contiguous, lemma_max_span_monotone,
    lemma_product_all_positive, lemma_rank_unrank, lemma_unrank_rank, linear_index, max_span,
    rank_index, unrank, unrank_index, valid_index,
};
use crate::shape::{
    contig_stride, lemma_positive_product_positive_extents, lemma_product_nonneg, numel_from_shape,
    shape_product, spec_is_contiguous, spec_numel, strides_from_deque_shape, suffix_products_fit,
    ShapeStrides,
};

verus! {

/// The dense row-major sequence of element words a strided tensor denotes:
/// entry `k` is the buffer word that the `k`-th row-major coordinate vector
/// reaches through the strides from the offset.
pub open spec fn tensor_contents(
    data: Seq<u32>,
    shape: Seq<usize>,
    strides: Seq<usize>,
    offset: int,
) -> Seq<u32> {
    Seq::new(
        spec_numel(shape) as nat,
        |k: int|
            data[offset + dot_prefix(strides, unrank_index(shape, k), shape.len() as int)],
    )
}

/// A host-memory tensor: a linear buffer of opaque 32-bit element words and
/// a strided descriptor over it. This is the engine's reference form of a
/// tensor; a device-resident tensor transfers into it to be read.
#[derive(Debug)]
pub struct CpuTensor {
    pub data: Vec<u32>,
    pub shape: Vec<usize>,
    pub strides: Vec<usize>,
    pub offset: usize,
}

impl CpuTensor {
    /// Well-formedness: one stride per extent, computable suffix products,
    /// and every addressable element lies inside the buffer.
    pub open spec fn wf(&self) -> bool {
        &&& self.strides@.len() == self.shape@.len()
        &&& suffix_products_fit(self.shape@)
        &&& spec_numel(self.shape@) > 0 ==> self.offset + max_span(
            self.shape@,
            self.strides@,
            self.shape@.len() as int,
        ) < self.data@.len()
    }

    /// The dense row-major contents this tensor denotes.
    pub open spec fn contents(&self) -> Seq<u32> {
        tensor_contents(self.data@, self.shape@, self.strides@, self.offset as int)
    }

    /// Wraps row-major `data` in a fresh contiguous descriptor of `shape`.
    /// The denoted contents are exactly `data`.
    pub fn from_data_and_shape(data: Vec<u32>, shape: Vec<usize>) -> (r: CpuTensor)
        requires
            suffix_products_fit(shape@),
            spec_numel(shape@) == data@.len(),
        ensures
            r.wf(),
            r.data@ == data@,
            r.shape@ == shape@,
            r.offset == 0,
            r.strides@.len() == shape@.len(),
            forall|i: int|
                0 <= i < r.strides@.len() ==> #[trigger] r.strides@[i] == contig_stride(shape@, i),
            r.contents() == data@,
    {
        let strides = strides_from_deque_shape(&shape);
        let r = CpuTensor { data, shape, strides, offset: 0 };
        proof {
            if spec_numel(r.shape@) > 0 {
                lemma_positive_product_positive_extents(r.shape@);
                lemma_max_span_contiguous(r.shape@, r.strides@);
            }
            lemma_contiguous_contents(r.data@, r.shape@, r.strides@);
        }
        r
    }

    /// Wraps a buffer in an explicitly given descriptor; the descriptor must
    /// keep every addressable element inside the buffer.
    pub fn new_with_strides_and_offset(
        data: Vec<u32>,
        shape: Vec<usize>,
        strides: Vec<usize>,
        offset: usize,
    ) -> (r: CpuTensor)
        requires
            shape@.len() == strides@.len(),
            suffix_products_fit(shape@),
            spec_numel(shape@) > 0 ==> offset + max_span(shape@, strides@, shape@.len() as int)
                < data@.len(),
        ensures
            r.wf(),
            r.data@ == data@,
            r.shape@ == shape@,
            r.strides@ == strides@,
            r.offset == offset,
    {
        CpuTensor { data, shape, strides, offset }
    }

    /// The buffer word that coordinate vector `idx` addresses.
    pub fn idx(&self, idx: &Vec<usize>) -> (r: u32)
        requires
            self.wf(),
            spec_numel(self.shape@) > 0,
            valid_index(self.shape@, idx@.map_values(|v: usize| v as int)),
        ensures
            r == self.data@[linear_index(
                self.strides@,
                self.offset as int,
                idx@.map_values(|v: usize| v as int),
            )],
    {
        let ghost iv = idx@.map_values(|v: usize| v as int);
        let rank = self.shape.len();
        let data_len = self.data.len();
        let mut lin: usize = self.offset;
        proof {
            lemma_positive_product_positive_extents(self.shape@);
        }
        for i in 0..rank
            invariant
                self.wf(),
                data_len == self.data@.len(),
                spec_numel(self.shape@) > 0,
                rank == self.shape@.len(),
                iv == idx@.map_values(|v: usize| v as int),
                valid_index(self.shape@, iv),
                lin == self.offset + dot_prefix(self.strides@, iv, i as int),
                forall|j: int| 0 <= j < rank ==> #[trigger] self.shape@[j] >= 1,
        {
            proof {
                lemma_dot_prefix_bounds(self.shape@, self.strides@, iv, i + 1);
                lemma_max_span_monotone(self.shape@, self.strides@, i + 1, rank as int);
                assert(iv[i as int] == idx@[i as int] as int);
                vstd::arithmetic::mul::lemma_mul_is_commutative(
                    idx@[i as int] as int,
                    self.strides@[i as int] as int,
                );
                assert(lin + idx@[i as int] * self.strides@[i as int] == self.offset + dot_prefix(
                    self.strides@,
                    iv,
                    i + 1,
                ));
                assert(self.offset + dot_prefix(self.strides@, iv, i + 1) <= self.offset
                    + max_span(self.shape@, self.strides@, rank as int));
            }
            lin = lin + idx[i] * self.strides[i];
        }
        proof {
            lemma_dot_prefix_bounds(self.shape@, self.strides@, iv, rank as int);
        }
        self.data[lin]
    }

    /// Reads the tensor out as a dense, contiguous, row-major vector.
    pub fn as_contiguous_vec(&self) -> (r: Vec<u32>)
        requires
            self.wf(),
        ensures
            r@ == self.contents(),
    {
        let n = numel_from_shape(&self.shape);
        let mut out: Vec<u32> = Vec::new();
        if n == 0 {
            assert(out@ =~= self.contents());
            return out;
        }
        proof {
            lemma_positive_product_positive_extents(self.shape@);
        }
        let cstrides = strides_from_deque_shape(&self.shape);
        let rank = self.shape.len();
        for k in 0..n
            invariant
                self.wf(),
                n == spec_numel(self.shape@),
                n > 0,
                rank == self.shape@.len(),
                cstrides@.len() == rank,
                forall|i: int|
                    0 <= i < rank ==> #[trigger] cstrides@[i] == contig_stride(self.shape@, i),
                forall|i: int| 0 <= i < rank ==> #[trigger] self.shape@[i] >= 1,
                forall|i: int|
                    0 <= i <= rank ==> #[trigger] crate::shape::shape_product(
                        self.shape@.skip(i),
                    ) >= 1,
                out@.len() == k,
                forall|j: int| 0 <= j < k ==> #[trigger] out@[j] == self.contents()[j],
        {
            proof {
                lemma_unrank_rank(self.shape@, k as int);
            }
            let ghost iv = unrank_index(self.shape@, k as int);
            let data_len = self.data.len();
            let mut lin: usize = self.offset;
            for i in 0..rank
                invariant
                    self.wf(),
                    data_len == self.data@.len(),
                    n == spec_numel(self.shape@),
                    n > 0,
                    k < n,
                    rank == self.shape@.len(),
                    cstrides@.len() == rank,
                    forall|i2: int|
                        0 <= i2 < rank ==> #[trigger] cstrides@[i2] == contig_stride(
                            self.shape@,
                            i2,
                        ),
                    forall|i2: int| 0 <= i2 < rank ==> #[trigger] self.shape@[i2] >= 1,
                    forall|i2: int|
                        0 <= i2 <= rank ==> #[trigger] crate::shape::shape_product(
                            self.shape@.skip(i2),
                        ) >= 1,
                    iv == unrank_index(self.shape@, k as int),
                    valid_index(self.shape@, iv),
                    lin == self.offset + dot_prefix(self.strides@, iv, i as int),
            {
                let c = cstrides[i];
                assert(c >= 1);
                let coord = (k / c) % self.shape[i];
                proof {
                    assert(coord == unrank(self.shape@, k as int, i as int));
                    assert(coord == iv[i as int]);
                    lemma_dot_prefix_bounds(self.shape@, self.strides@, iv, i + 1);
                    lemma_max_span_monotone(self.shape@, self.strides@, i + 1, rank as int);
                    vstd::arithmetic::mul::lemma_mul_is_commutative(
                        coord as int,
                        self.strides@[i as int] as int,
                    );
                    assert(lin + coord * self.strides@[i as int] == self.offset + dot_prefix(
                        self.strides@,
                        iv,
                        i + 1,
                    ));
                    assert(self.offset + dot_prefix(self.strides@, iv, i + 1) <= self.offset
                        + max_span(self.shape@, self.strides@, rank as int));
                }
                lin = lin + coord * self.strides[i];
            }
            proof {
                lemma_dot_prefix_bounds(self.shape@, self.strides@, iv, rank as int);
                assert(self.contents()[k as int] == self.data@[self.offset + dot_prefix(
                    self.strides@,
                    iv,
                    rank as int,
                )]);
            }
            out.push(self.data[lin]);
        }
        proof {
            assert(out@ =~= self.contents());
        }
        out
    }

    /// Materializes the tensor: a fresh contiguous tensor denoting the same
    /// contents. Materializing never changes the logical contents.
    pub fn contiguous(&self) -> (r: CpuTensor)
        requires
            self.wf(),
        ensures
            r.wf(),
            r.shape@ == self.shape@,
            r.offset == 0,
            spec_is_contiguous(r.shape@, r.strides@),
            r.strides@.len() == r.shape@.len(),
            forall|i: int|
                0 <= i < r.strides@.len() ==> #[trigger] r.strides@[i] == contig_stride(
                    r.shape@,
                    i,
                ),
            r.data@ == self.contents(),
            r.contents() == self.contents(),
    {
        let data = self.as_contiguous_vec();
        proof {
            crate::shape::lemma_product_nonneg(self.shape@);
            assert(data@.len() == spec_numel(self.shape@));
        }
        let r = CpuTensor::from_data_and_shape(data, self.shape.clone());
        r
    }

    /// True exactly when both tensors have the same shape and denote the
    /// same contents; two tensors of no elements are equal.
    pub fn eq(&self, other: &CpuTensor) -> (r: bool)
        requires
            self.wf(),
            other.wf(),
        ensures
            r == (self.shape@ == other.shape@ && self.contents() == other.contents()),
    {
        if self.shape.len() != other.shape.len() {
            proof {
                assert(self.shape@ != other.shape@);
            }
            return false;
        }
        let rank = self.shape.len();
        for i in 0..rank
            invariant
                rank == self.shape@.len(),
                rank == other.shape@.len(),
                forall|j: int| 0 <= j < i ==> #[trigger] self.shape@[j] == other.shape@[j],
        {
            if self.shape[i] != other.shape[i] {
                proof {
                    assert(self.shape@ != other.shape@);
                }
                return false;
            }
        }
        proof {
            assert(self.shape@ =~= other.shape@);
        }
        let a = self.as_contiguous_vec();
        let b = other.as_contiguous_vec();
        let n = a.len();
        proof {
            crate::shape::lemma_product_nonneg(self.shape@);
            crate::shape::lemma_product_nonneg(other.shape@);
            assert(a@.len() == spec_numel(self.shape@));
            assert(b@.len() == spec_numel(other.shape@));
        }
        for j in 0..n
            invariant
                n == a@.len(),
                n == b@.len(),
                a@ == self.contents(),
                b@ == other.contents(),
                forall|j2: int| 0 <= j2 < j ==> #[trigger] a@[j2] == b@[j2],
        {
            if a[j] != b[j] {
                proof {
                    assert(self.contents()[j as int] != other.contents()[j as int]);
                }
                return false;
            }
        }
        proof {
            assert(self.contents() =~= other.contents());
        }
        true
    }
}

/// Law: wrapping a row-major buffer in a fresh contiguous descriptor
/// denotes exactly that buffer, so reading it back returns the data that
/// went in.
pub proof fn lemma_contiguous_contents(data: Seq<u32>, shape: Seq<usize>, strides: Seq<usize>)
    requires
        strides.len() == shape.len(),
        forall|i: int| 0 <= i < shape.len() ==> #[trigger] strides[i] == contig_stride(shape, i),
        data.len() == spec_numel(shape),
    ensures
        tensor_contents(data, shape, strides, 0) == data,
{
    let n = spec_numel(shape);
    assert forall|k: int| 0 <= k < n implies #[trigger] tensor_contents(data, shape, strides, 0)[k]
        == data[k] by {
        lemma_unrank_rank(shape, k);
        lemma_dot_prefix_contiguous(shape, strides, unrank_index(shape, k), shape.len() as int);
    }
    assert(tensor_contents(data, shape, strides, 0) =~= data);
}

/// The linear buffer position of the `k`-th row-major element under a
/// descriptor.
pub open spec fn enumerated_linear(
    shape: Seq<usize>,
    strides: Seq<usize>,
    offset: int,
    k: int,
) -> int {
    offset + dot_prefix(strides, unrank_index(shape, k), shape.len() as int)
}

/// Buffer position `p` is addressed by the descriptor: some valid
/// coordinate vector reaches it. A descriptor of no elements (rank 0)
/// addresses nothing.
pub open spec fn addressed(shape: Seq<usize>, strides: Seq<usize>, offset: int, p: int) -> bool {
    shape.len() > 0 && exists|idx: Seq<int>|
        valid_index(shape, idx) && offset + dot_prefix(strides, idx, shape.len() as int) == p
}

/// Some element among the first `kmax` enumerated ones reaches position `p`.
pub open spec fn written_prefix(
    shape: Seq<usize>,
    strides: Seq<usize>,
    offset: int,
    kmax: int,
    p: int,
) -> bool {
    exists|k: int| 0 <= k < kmax && #[trigger] enumerated_linear(shape, strides, offset, k) == p
}

/// Law: a position is addressed exactly when one of the enumerated elements
/// reaches it.
pub proof fn lemma_addressed_iff_enumerated(
    shape: Seq<usize>,
    strides: Seq<usize>,
    offset: int,
    p: int,
)
    ensures
        addressed(shape, strides, offset, p) <==> written_prefix(
            shape,
            strides,
            offset,
            spec_numel(shape),
            p,
        ),
{
    if written_prefix(shape, strides, offset, spec_numel(shape), p) {
        let k = choose|k: int|
            0 <= k < spec_numel(shape) && #[trigger] enumerated_linear(shape, strides, offset, k)
                == p;
        assert(shape.len() > 0);
        lemma_unrank_rank(shape, k);
        assert(valid_index(shape, unrank_index(shape, k)) && offset + dot_prefix(
            strides,
            unrank_index(shape, k),
            shape.len() as int,
        ) == p);
    }
    if addressed(shape, strides, offset, p) {
        let idx = choose|idx: Seq<int>|
            valid_index(shape, idx) && offset + dot_prefix(strides, idx, shape.len() as int) == p;
        assert forall|i: int| 0 <= i < shape.len() implies #[trigger] shape[i] >= 1 by {
            assert(0 <= idx[i] < shape[i]);
        }
        lemma_product_all_positive(shape);
        lemma_rank_unrank(shape, idx);
        let k = rank_index(shape, idx, shape.len() as int);
        assert(unrank_index(shape, k) =~= idx);
        lemma_dot_prefix_congruence(strides, unrank_index(shape, k), idx, shape.len() as int);
        assert(enumerated_linear(shape, strides, offset, k) == p);
    }
}

/// Writes `value` into every buffer position the descriptor addresses and
/// leaves every other position untouched.
fn write_region(
    data: &mut Vec<u32>,
    shape: &Vec<usize>,
    strides: &Vec<usize>,
    offset: usize,
    value: u32,
)
    requires
        shape@.len() == strides@.len(),
        suffix_products_fit(shape@),
        spec_numel(shape@) > 0 ==> offset + max_span(shape@, strides@, shape@.len() as int) < old(
            data,
        )@.len(),
    ensures
        final(data)@.len() == old(data)@.len(),
        forall|p: int|
            0 <= p < old(data)@.len() ==> #[trigger] final(data)@[p] == (if addressed(
                shape@,
                strides@,
                offset as int,
                p,
            ) {
                value
            } else {
                old(data)@[p]
            }),
{
    let n = numel_from_shape(shape);
    if n == 0 {
        proof {
            assert forall|p: int| 0 <= p < data@.len() implies !addressed(
                shape@,
                strides@,
                offset as int,
                p,
            ) by {
                if addressed(shape@, strides@, offset as int, p) {
                    let idx = choose|idx: Seq<int>|
                        valid_index(shape@, idx) && offset + dot_prefix(
                            strides@,
                            idx,
                            shape@.len() as int,
                        ) == p;
                    assert forall|i: int| 0 <= i < shape@.len() implies #[trigger] shape@[i]
                        >= 1 by {
                        assert(0 <= idx[i] < shape@[i]);
                    }
                    lemma_product_all_positive(shape@);
                }
            }
        }
        return ;
    }
    proof {
        lemma_positive_product_positive_extents(shape@);
    }
    let cstrides = strides_from_deque_shape(shape);
    let rank = shape.len();
    for k in 0..n
        invariant
            shape@.len() == strides@.len(),
            rank == shape@.len(),
            n == spec_numel(shape@),
            n > 0,
            suffix_products_fit(shape@),
            data@.len() == old(data)@.len(),
            offset + max_span(shape@, strides@, rank as int) < data@.len(),
            cstrides@.len() == rank,
            forall|i: int|
                0 <= i < rank ==> #[trigger] cstrides@[i] == contig_stride(shape@, i),
            forall|i: int| 0 <= i < rank ==> #[trigger] shape@[i] >= 1,
            forall|i: int|
                0 <= i <= rank ==> #[trigger] shape_product(shape@.skip(i)) >= 1,
            forall|k2: int|
                0 <= k2 < k ==> data@[#[trigger] enumerated_linear(
                    shape@,
                    strides@,
                    offset as int,
                    k2,
                )] == value,
            forall|p: int|
                #![trigger data@[p]]
                0 <= p < data@.len() && !written_prefix(shape@, strides@, offset as int, k as int, p)
                    ==> data@[p] == old(data)@[p],
    {
        proof {
            lemma_unrank_rank(shape@, k as int);
        }
        let ghost iv = unrank_index(shape@, k as int);
        let data_len = data.len();
        let mut lin: usize = offset;
        for i in 0..rank
            invariant
                shape@.len() == strides@.len(),
                rank == shape@.len(),
                n == spec_numel(shape@),
                n > 0,
                k < n,
                data_len == data@.len(),
                offset + max_span(shape@, strides@, rank as int) < data@.len(),
                cstrides@.len() == rank,
                forall|i2: int|
                    0 <= i2 < rank ==> #[trigger] cstrides@[i2] == contig_stride(shape@, i2),
                forall|i2: int| 0 <= i2 < rank ==> #[trigger] shape@[i2] >= 1,
                forall|i2: int|
                    0 <= i2 <= rank ==> #[trigger] shape_product(shape@.skip(i2)) >= 1,
                iv == unrank_index(shape@, k as int),
                valid_index(shape@, iv),
                lin == offset + dot_prefix(strides@, iv, i as int),
        {
            let c = cstrides[i];
            assert(c >= 1);
            let coord = (k / c) % shape[i];
            proof {
                assert(coord == unrank(shape@, k as int, i as int));
                assert(coord == iv[i as int]);
                lemma_dot_prefix_bounds(shape@, strides@, iv, i + 1);
                lemma_max_span_monotone(shape@, strides@, i + 1, rank as int);
                vstd::arithmetic::mul::lemma_mul_is_commutative(
                    coord as int,
                    strides@[i as int] as int,
                );
                assert(lin + coord * strides@[i as int] == offset + dot_prefix(
                    strides@,
                    iv,
                    i + 1,
                ));
            }
            lin = lin + coord * strides[i];
        }
        proof {
            lemma_dot_prefix_bounds(shape@, strides@, iv, rank as int);
            assert(lin == enumerated_linear(shape@, strides@, offset as int, k as int));
        }
        let ghost pre = data@;
        data.set(lin, value);
        proof {
            assert forall|k2: int| 0 <= k2 < k + 1 implies data@[#[trigger] enumerated_linear(
                shape@,
                strides@,
                offset as int,
                k2,
            )] == value by {
                if k2 < k {
                    lemma_unrank_rank(shape@, k2);
                    lemma_dot_prefix_bounds(
                        shape@,
                        strides@,
                        unrank_index(shape@, k2),
                        rank as int,
                    );
                    assert(0 <= enumerated_linear(shape@, strides@, offset as int, k2)
                        < data@.len());
                    if enumerated_linear(shape@, strides@, offset as int, k2) != lin {
                        assert(data@[enumerated_linear(shape@, strides@, offset as int, k2)]
                            == pre[enumerated_linear(shape@, strides@, offset as int, k2)]);
                    }
                }
            }
            assert forall|p: int|
                0 <= p < data@.len() && !written_prefix(
                    shape@,
                    strides@,
                    offset as int,
                    k + 1,
                    p,
                ) implies data@[p] == old(data)@[p] by {
                assert(enumerated_linear(shape@, strides@, offset as int, k as int) != p);
                assert(!written_prefix(shape@, strides@, offset as int, k as int, p));
                assert(data@[p] == pre[p]);
            }
        }
    }
    proof {
        assert forall|p: int| 0 <= p < old(data)@.len() implies data@[p] == (if addressed(
            shape@,
            strides@,
            offset as int,
            p,
        ) {
            value
        } else {
            old(data)@[p]
        }) by {
            lemma_addressed_iff_enumerated(shape@, strides@, offset as int, p);
        }
    }
}

impl CpuTensor {
    /// Writes `value` into every element the tensor addresses; afterwards
    /// every logical element reads `value`.
    pub fn fill_with(&mut self, value: u32)
        requires
            old(self).wf(),
        ensures
            final(self).wf(),
            final(self).shape@ == old(self).shape@,
            final(self).strides@ == old(self).strides@,
            final(self).offset == old(self).offset,
            final(self).data@.len() == old(self).data@.len(),
            forall|p: int|
                0 <= p < old(self).data@.len() ==> #[trigger] final(self).data@[p] == (if addressed(
                    old(self).shape@,
                    old(self).strides@,
                    old(self).offset as int,
                    p,
                ) {
                    value
                } else {
                    old(self).data@[p]
                }),
            final(self).contents() == Seq::new(
                spec_numel(old(self).shape@) as nat,
                |k: int| value,
            ),
    {
        write_region(&mut self.data, &self.shape, &self.strides, self.offset, value);
        proof {
            lemma_product_nonneg(self.shape@);
            let n = spec_numel(self.shape@);
            if n > 0 {
                lemma_positive_product_positive_extents(self.shape@);
            }
            assert forall|k: int| 0 <= k < n implies self.contents()[k] == value by {
                lemma_unrank_rank(self.shape@, k);
                lemma_dot_prefix_bounds(
                    self.shape@,
                    self.strides@,
                    unrank_index(self.shape@, k),
                    self.shape@.len() as int,
                );
                lemma_addressed_iff_enumerated(
                    self.shape@,
                    self.strides@,
                    self.offset as int,
                    enumerated_linear(self.shape@, self.strides@, self.offset as int, k),
                );
            }
            assert(self.contents() =~= Seq::new(n as nat, |k: int| value));
        }
    }

    /// Derives the sliced region of `self` from `bounds` and writes `value`
    /// into every element that region addresses. Fails with
    /// [`TensorError::IndexOutOfRange`], leaving the tensor untouched, when
    /// the bounds reach past the shape.
    pub fn assign(&mut self, bounds: &Vec<SliceRangeInfo>, value: u32) -> (r: Result<
        (),
        TensorError,
    >)
        requires
            old(self).wf(),
            bounds_all_wf(bounds@),
            slice_bounds_ok(old(self).shape@, bounds@) ==> {
                &&& forall|i: int|
                    #![trigger bounds@[i]]
                    0 <= i < bounds@.len() ==> old(self).strides@[i] * bounds@[i].step
                        <= usize::MAX
                &&& old(self).offset + slice_offset_delta(
                    old(self).strides@,
                    bounds@,
                    bounds@.len() as int,
                ) <= usize::MAX
            },
        ensures
            r is Ok <==> slice_bounds_ok(old(self).shape@, bounds@),
            r matches Err(e) ==> e == TensorError::IndexOutOfRange && *final(self) == *old(self),
            r is Ok ==> {
                &&& final(self).wf()
                &&& final(self).shape@ == old(self).shape@
                &&& final(self).strides@ == old(self).strides@
                &&& final(self).offset == old(self).offset
                &&& final(self).data@.len() == old(self).data@.len()
                &&& forall|p: int|
                    0 <= p < old(self).data@.len() ==> #[trigger] final(self).data@[p] == (
                    if addressed(
                        sliced_shape(old(self).shape@, bounds@),
                        sliced_strides(old(self).strides@, bounds@),
                        sliced_offset(old(self).offset as int, old(self).strides@, bounds@),
                        p,
                    ) {
                        value
                    } else {
                        old(self).data@[p]
                    })
            },
    {
        let desc = ShapeStrides {
            shape: self.shape.clone(),
            strides: self.strides.clone(),
            offset: self.offset,
        };
        match shape_strides_for_slice_range(&desc, bounds) {
            Err(e) => Err(e),
            Ok(d) => {
                let data_len = self.data.len();
                proof {
                    lemma_slice_preserves_fit(self.shape@, bounds@);
                    lemma_product_nonneg(d.shape@);
                    if spec_numel(d.shape@) > 0 {
                        lemma_slice_keeps_buffer(
                            self.shape@,
                            self.strides@,
                            self.offset as int,
                            bounds@,
                            self.data@.len() as int,
                        );
                    }
                }
                write_region(&mut self.data, &d.shape, &d.strides, d.offset, value);
                Ok(())
            },
        }
    }

    /// A zero-copy view of the sliced region: the same buffer under the
    /// sliced descriptor. Fails with [`TensorError::IndexOutOfRange`] when
    /// the bounds reach past the shape.
    pub fn slice(&self, bounds: &Vec<SliceRangeInfo>) -> (r: Result<CpuTensor, TensorError>)
        requires
            self.wf(),
            bounds_all_wf(bounds@),
            slice_bounds_ok(self.shape@, bounds@) ==> {
                &&& forall|i: int|
                    #![trigger bounds@[i]]
                    0 <= i < bounds@.len() ==> self.strides@[i] * bounds@[i].step <= usize::MAX
                &&& self.offset + slice_offset_delta(
                    self.strides@,
                    bounds@,
                    bounds@.len() as int,
                ) <= usize::MAX
            },
        ensures
            r is Ok <==> slice_bounds_ok(self.shape@, bounds@),
            r matches Err(e) ==> e == TensorError::IndexOutOfRange,
            r matches Ok(t) ==> {
                &&& t.wf()
                &&& t.data@ == self.data@
                &&& t.shape@ == sliced_shape(self.shape@, bounds@)
                &&& t.strides@ == sliced_strides(self.strides@, bounds@)
                &&& t.offset == sliced_offset(self.offset as int, self.strides@, bounds@)
            },
    {
        let desc = ShapeStrides {
            shape: self.shape.clone(),
            strides: self.strides.clone(),
            offset: self.offset,
        };
        match shape_strides_for_slice_range(&desc, bounds) {
            Err(e) => Err(e),
            Ok(d) => {
                proof {
                    lemma_slice_preserves_fit(self.shape@, bounds@);
                    lemma_product_nonneg(d.shape@);
                    if spec_numel(d.shape@) > 0 {
                        lemma_slice_keeps_buffer(
                            self.shape@,
                            self.strides@,
                            self.offset as int,
                            bounds@,
                            self.data@.len() as int,
                        );
                    }
                }
                Ok(CpuTensor {
                    data: self.data.clone(),
                    shape: d.shape,
                    strides: d.strides,
                    offset: d.offset,
                })
            },
        }
    }
}

/// Extents (or strides) with the last two entries exchanged.
pub open spec fn swap_last_two(s: Seq<usize>) -> Seq<usize> {
    s.update(s.len() - 2, s[s.len() - 1]).update(s.len() - 1, s[s.len() - 2])
}

/// Exchanging the last two extents keeps every suffix product computable
/// and the total product unchanged.
proof fn lemma_swap_last_two_products(shape: Seq<usize>, i: int)
    requires
        shape.len() >= 2,
        0 <= i <= shape.len() - 2,
    ensures
        shape_product(swap_last_two(shape).skip(i)) == shape_product(shape.skip(i)),
    decreases shape.len() - i,
{
    let sw = swap_last_two(shape);
    let n = shape.len() as int;
    if i == n - 2 {
        assert(sw.skip(i).len() == 2);
        assert(sw.skip(i)[0] == shape[n - 1]);
        assert(sw.skip(i)[1] == shape[n - 2]);
        assert(shape.skip(i)[0] == shape[n - 2]);
        assert(shape.skip(i)[1] == shape[n - 1]);
        assert(sw.skip(i).skip(1)[0] == shape[n - 2]);
        assert(shape.skip(i).skip(1)[0] == shape[n - 1]);
        assert(sw.skip(i).skip(1).skip(1) =~= Seq::<usize>::empty());
        assert(shape.skip(i).skip(1).skip(1) =~= Seq::<usize>::empty());
        crate::shape::lemma_product_unfold(sw.skip(i), 0);
        crate::shape::lemma_product_unfold(shape.skip(i), 0);
        assert(sw.skip(i).skip(1) =~= sw.skip(i + 1));
        assert(shape.skip(i).skip(1) =~= shape.skip(i + 1));
        crate::shape::lemma_product_unfold(sw.skip(i + 1), 0);
        crate::shape::lemma_product_unfold(shape.skip(i + 1), 0);
        assert(sw.skip(i + 1).skip(1) =~= sw.skip(i + 2));
        assert(shape.skip(i + 1).skip(1) =~= shape.skip(i + 2));
        assert(sw.skip(i + 2) =~= Seq::<usize>::empty());
        assert(shape.skip(i + 2) =~= Seq::<usize>::empty());
        assert(shape_product(sw.skip(i)) == shape[n - 1] * (shape[n - 2] * 1));
        assert(shape_product(shape.skip(i)) == shape[n - 2] * (shape[n - 1] * 1));
        assert(shape[n - 1] * (shape[n - 2] * 1) == shape[n - 2] * (shape[n - 1] * 1)) by {
            vstd::arithmetic::mul::lemma_mul_is_commutative(
                shape[n - 1] as int,
                shape[n - 2] as int,
            );
        }
    } else {
        lemma_swap_last_two_products(shape, i + 1);
        crate::shape::lemma_product_unfold(sw.skip(i), 0);
        crate::shape::lemma_product_unfold(shape.skip(i), 0);
        assert(sw.skip(i)[0] == shape[i]);
        assert(shape.skip(i)[0] == shape[i]);
        assert(sw.skip(i).skip(1) =~= sw.skip(i + 1));
        assert(shape.skip(i).skip(1) =~= shape.skip(i + 1));
    }
}

impl CpuTensor {
    /// Transposes the last two axes, materializing the result: the output is
    /// a fresh contiguous tensor read through the exchanged strides.
    pub fn transpose(&self) -> (r: CpuTensor)
        requires
            self.wf(),
            self.shape@.len() >= 2,
        ensures
            r.wf(),
            r.shape@ == swap_last_two(self.shape@),
            r.offset == 0,
            spec_is_contiguous(r.shape@, r.strides@),
            forall|i: int|
                0 <= i < r.strides@.len() ==> #[trigger] r.strides@[i] == contig_stride(
                    r.shape@,
                    i,
                ),
            r.data@ == tensor_contents(
                self.data@,
                swap_last_two(self.shape@),
                swap_last_two(self.strides@),
                self.offset as int,
            ),
            r.contents() == tensor_contents(
                self.data@,
                swap_last_two(self.shape@),
                swap_last_two(self.strides@),
                self.offset as int,
            ),
    {
        let rank = self.shape.len();
        let mut shape2 = self.shape.clone();
        let a = shape2[rank - 2];
        let b = shape2[rank - 1];
        shape2.set(rank - 2, b);
        shape2.set(rank - 1, a);
        let mut strides2 = self.strides.clone();
        let sa = strides2[rank - 2];
        let sb = strides2[rank - 1];
        strides2.set(rank - 2, sb);
        strides2.set(rank - 1, sa);
        proof {
            assert(shape2@ =~= swap_last_two(self.shape@));
            assert(strides2@ =~= swap_last_two(self.strides@));
            assert forall|i: int| 0 <= i <= shape2@.len() implies #[trigger] shape_product(
                shape2@.skip(i),
            ) <= usize::MAX by {
                if i <= rank - 2 {
                    lemma_swap_last_two_products(self.shape@, i);
                    assert(shape_product(self.shape@.skip(i)) <= usize::MAX);
                } else if i == rank - 1 {
                    assert(shape2@.skip(i).len() == 1);
                    assert(shape2@.skip(i)[0] == self.shape@[rank - 2]);
                    crate::shape::lemma_product_unfold(shape2@.skip(i), 0);
                    assert(shape2@.skip(i).skip(1) =~= Seq::<usize>::empty());
                } else {
                    assert(shape2@.skip(i) =~= Seq::<usize>::empty());
                }
            }
            lemma_swap_last_two_products(self.shape@, 0);
            assert(shape2@.skip(0) =~= shape2@);
            assert(self.shape@.skip(0) =~= self.shape@);
            assert(spec_numel(shape2@) == spec_numel(self.shape@));
            if spec_numel(shape2@) > 0 {
                assert(max_span(shape2@, strides2@, rank as int) == max_span(
                    self.shape@,
                    self.strides@,
                    rank as int,
                )) by {
                    lemma_max_span_congruence(
                        shape2@,
                        strides2@,
                        self.shape@,
                        self.strides@,
                        rank - 2,
                    );
                    assert(max_span(shape2@, strides2@, rank as int) == max_span(
                        shape2@,
                        strides2@,
                        rank - 1,
                    ) + (shape2@[rank - 1] - 1) * strides2@[rank - 1]);
                    assert(max_span(shape2@, strides2@, rank - 1) == max_span(
                        shape2@,
                        strides2@,
                        rank - 2,
                    ) + (shape2@[rank - 2] - 1) * strides2@[rank - 2]);
                    assert(max_span(self.shape@, self.strides@, rank as int) == max_span(
                        self.shape@,
                        self.strides@,
                        rank - 1,
                    ) + (self.shape@[rank - 1] - 1) * self.strides@[rank - 1]);
                    assert(max_span(self.shape@, self.strides@, rank - 1) == max_span(
                        self.shape@,
                        self.strides@,
                        rank - 2,
                    ) + (self.shape@[rank - 2] - 1) * self.strides@[rank - 2]);
                }
            }
        }
        let view = CpuTensor {
            data: self.data.clone(),
            shape: shape2,
            strides: strides2,
            offset: self.offset,
        };
        view.contiguous()
    }
}

} // verus!
