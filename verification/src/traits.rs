use vstd::prelude::*;
use crate::error::TensorError;
use crate::host::CpuTensor;
use crate::shape::{
    contig_stride, spec_is_contiguous, spec_numel, suffix_products_fit, numel_from_shape,
    strides_from_deque_shape, ShapeStrides,
};

verus! {

/// Read access to the dimension model every strided value carries: extents,
/// strides, origin offset, and what follows from them.
pub trait ShapeStrideTrait {
    /// The extents, as the contracts speak of them.
    spec fn shape_spec(&self) -> Seq<usize>;

    /// The strides, as the contracts speak of them.
    spec fn strides_spec(&self) -> Seq<usize>;

    /// The origin offset, as the contracts speak of it.
    spec fn offset_spec(&self) -> int;

    fn shape(&self) -> (r: &Vec<usize>)
        ensures
            r@ == self.shape_spec(),
    ;

    fn strides(&self) -> (r: &Vec<usize>)
        ensures
            r@ == self.strides_spec(),
    ;

    fn offset(&self) -> (r: usize)
        ensures
            r == self.offset_spec(),
    ;

    /// Number of dimensions.
    fn rank(&self) -> (r: usize)
        ensures
            r == self.shape_spec().len(),
    ;

    /// Number of elements addressed: 0 for the empty shape, else the
    /// product of the extents.
    fn numel(&self) -> (r: usize)
        requires
            suffix_products_fit(self.shape_spec()),
        ensures
            r == spec_numel(self.shape_spec()),
    ;

    /// Each stride is 0 (a phantom dimension) or what a fresh contiguous
    /// descriptor of the same shape carries at that place.
    fn is_contiguous(&self) -> (r: bool)
        requires
            self.strides_spec().len() == self.shape_spec().len(),
            suffix_products_fit(self.shape_spec()),
        ensures
            r == spec_is_contiguous(self.shape_spec(), self.strides_spec()),
    ;
}

/// Rank adjustment for values whose descriptor can change in place.
pub trait MutShapeStrideTrait: ShapeStrideTrait {
    /// Pushes a leading phantom dimension: extent 1, stride 0.
    fn increase_rank(&mut self)
        requires
            old(self).strides_spec().len() == old(self).shape_spec().len(),
        ensures
            final(self).shape_spec() == seq![1usize] + old(self).shape_spec(),
            final(self).strides_spec() == seq![0usize] + old(self).strides_spec(),
            final(self).offset_spec() == old(self).offset_spec(),
    ;

    /// Pops the leading dimension; fails with
    /// [`TensorError::InvalidRankChange`] unless its extent is exactly 1.
    fn decrease_rank(&mut self) -> (r: Result<(), TensorError>)
        requires
            old(self).strides_spec().len() == old(self).shape_spec().len(),
        ensures
            r is Ok <==> old(self).shape_spec().len() > 0 && old(self).shape_spec()[0] == 1,
            r is Ok ==> {
                &&& final(self).shape_spec() == old(self).shape_spec().skip(1)
                &&& final(self).strides_spec() == old(self).strides_spec().skip(1)
                &&& final(self).offset_spec() == old(self).offset_spec()
            },
            r is Err ==> {
                &&& final(self).shape_spec() == old(self).shape_spec()
                &&& final(self).strides_spec() == old(self).strides_spec()
                &&& final(self).offset_spec() == old(self).offset_spec()
                &&& r == Err::<(), TensorError>(TensorError::InvalidRankChange)
            },
    ;
}

impl ShapeStrideTrait for ShapeStrides {
    open spec fn shape_spec(&self) -> Seq<usize> {
        self.shape@
    }

    open spec fn strides_spec(&self) -> Seq<usize> {
        self.strides@
    }

    open spec fn offset_spec(&self) -> int {
        self.offset as int
    }

    fn shape(&self) -> (r: &Vec<usize>) {
        &self.shape
    }

    fn strides(&self) -> (r: &Vec<usize>) {
        &self.strides
    }

    fn offset(&self) -> (r: usize) {
        self.offset
    }

    fn rank(&self) -> (r: usize) {
        self.shape.len()
    }

    fn numel(&self) -> (r: usize) {
        numel_from_shape(&self.shape)
    }

    fn is_contiguous(&self) -> (r: bool) {
        let contiguous = strides_from_deque_shape(&self.shape);
        let n = self.strides.len();
        for i in 0..n
            invariant
                n == self.strides@.len(),
                contiguous@.len() == n,
                forall|j: int| 0 <= j < n ==> contiguous@[j] == contig_stride(self.shape@, j),
                forall|j: int|
                    #![trigger self.strides@[j]]
                    0 <= j < i ==> self.strides@[j] == 0 || self.strides@[j] == contig_stride(
                        self.shape@,
                        j,
                    ),
        {
            if self.strides[i] != 0 && self.strides[i] != contiguous[i] {
                return false;
            }
        }
        true
    }
}

impl MutShapeStrideTrait for ShapeStrides {
    fn increase_rank(&mut self) {
        ShapeStrides::increase_rank(self);
    }

    fn decrease_rank(&mut self) -> (r: Result<(), TensorError>) {
        ShapeStrides::decrease_rank(self)
    }
}

impl ShapeStrideTrait for CpuTensor {
    open spec fn shape_spec(&self) -> Seq<usize> {
        self.shape@
    }

    open spec fn strides_spec(&self) -> Seq<usize> {
        self.strides@
    }

    open spec fn offset_spec(&self) -> int {
        self.offset as int
    }

    fn shape(&self) -> (r: &Vec<usize>) {
        &self.shape
    }

    fn strides(&self) -> (r: &Vec<usize>) {
        &self.strides
    }

    fn offset(&self) -> (r: usize) {
        self.offset
    }

    fn rank(&self) -> (r: usize) {
        self.shape.len()
    }

    fn numel(&self) -> (r: usize) {
        numel_from_shape(&self.shape)
    }

    fn is_contiguous(&self) -> (r: bool) {
        let contiguous = strides_from_deque_shape(&self.shape);
        let n = self.strides.len();
        for i in 0..n
            invariant
                n == self.strides@.len(),
                contiguous@.len() == n,
                forall|j: int| 0 <= j < n ==> contiguous@[j] == contig_stride(self.shape@, j),
                forall|j: int|
                    #![trigger self.strides@[j]]
                    0 <= j < i ==> self.strides@[j] == 0 || self.strides@[j] == contig_stride(
                        self.shape@,
                        j,
                    ),
        {
            if self.strides[i] != 0 && self.strides[i] != contiguous[i] {
                return false;
            }
        }
        true
    }
}

} // verus!
