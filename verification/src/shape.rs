use vstd::prelude::*;
use vstd::arithmetic::mul::lemma_mul_nonnegative;
use crate::error::TensorError;

verus! {

/// Product of all extents of `shape`; 1 for the empty sequence.
pub open spec fn shape_product(shape: Seq<usize>) -> int
    decreases shape.len(),
{
    if shape.len() == 0 {
        1
    } else {
        shape[0] * shape_product(shape.skip(1))
    }
}

/// The stride a freshly created, contiguous (row-major) descriptor of `shape`
/// carries at dimension `i`: the product of all extents to the right of `i`.
pub open spec fn contig_stride(shape: Seq<usize>, i: int) -> int {
    shape_product(shape.skip(i + 1))
}

/// Number of elements the shape addresses: the product of the extents, except
/// that the empty shape (rank 0) denotes a tensor with no elements.
pub open spec fn spec_numel(shape: Seq<usize>) -> int {
    if shape.len() == 0 {
        0
    } else {
        shape_product(shape)
    }
}

/// Machine limit under which suffix products (and hence contiguous strides
/// and the element count) can be computed in a `usize`.
pub open spec fn suffix_products_fit(shape: Seq<usize>) -> bool {
    forall|i: int| 0 <= i <= shape.len() ==> #[trigger] shape_product(shape.skip(i)) <= usize::MAX
}

/// Unfolds the product one extent at a time from the left.
pub proof fn lemma_product_unfold(shape: Seq<usize>, i: int)
    requires
        0 <= i < shape.len(),
    ensures
        shape_product(shape.skip(i)) == shape[i] * shape_product(shape.skip(i + 1)),
{
    assert(shape.skip(i).skip(1) =~= shape.skip(i + 1));
    assert(shape.skip(i)[0] == shape[i]);
}

/// The product of extents is never negative.
pub proof fn lemma_product_nonneg(shape: Seq<usize>)
    ensures
        shape_product(shape) >= 0,
    decreases shape.len(),
{
    if shape.len() > 0 {
        lemma_product_nonneg(shape.skip(1));
        lemma_mul_nonnegative(shape[0] as int, shape_product(shape.skip(1)));
    }
}

/// When the product of the extents is positive, every extent is positive,
/// and so is every suffix product.
pub proof fn lemma_positive_product_positive_extents(shape: Seq<usize>)
    requires
        shape_product(shape) > 0,
    ensures
        forall|i: int| 0 <= i < shape.len() ==> shape[i] >= 1,
        forall|i: int| 0 <= i <= shape.len() ==> #[trigger] shape_product(shape.skip(i)) >= 1,
    decreases shape.len(),
{
    if shape.len() > 0 {
        lemma_product_unfold(shape, 0);
        lemma_product_nonneg(shape.skip(1));
        if shape_product(shape.skip(1)) <= 0 || shape[0] <= 0 {
            assert(shape_product(shape) <= 0) by (nonlinear_arith)
                requires
                    shape_product(shape) == shape[0] * shape_product(shape.skip(1)),
                    shape_product(shape.skip(1)) >= 0,
                    shape[0] >= 0,
                    shape_product(shape.skip(1)) <= 0 || shape[0] <= 0,
            ;
        }
        lemma_positive_product_positive_extents(shape.skip(1));
        assert forall|i: int| 1 <= i < shape.len() implies shape[i] >= 1 by {
            assert(shape.skip(1)[i - 1] == shape[i]);
        }
        assert forall|i: int| 1 <= i <= shape.len() implies #[trigger] shape_product(
            shape.skip(i),
        ) >= 1 by {
            assert(shape.skip(1).skip(i - 1) =~= shape.skip(i));
        }
    }
}

/// A product of extents only shrinks when each extent shrinks.
pub proof fn lemma_product_pointwise_le(s1: Seq<usize>, s2: Seq<usize>)
    requires
        s1.len() == s2.len(),
        forall|i: int| 0 <= i < s1.len() ==> #[trigger] s1[i] <= s2[i],
    ensures
        shape_product(s1) <= shape_product(s2),
    decreases s1.len(),
{
    if s1.len() > 0 {
        assert forall|i: int| 0 <= i < s1.skip(1).len() implies #[trigger] s1.skip(1)[i]
            <= s2.skip(1)[i] by {
            assert(s1.skip(1)[i] == s1[i + 1]);
            assert(s2.skip(1)[i] == s2[i + 1]);
        }
        lemma_product_pointwise_le(s1.skip(1), s2.skip(1));
        lemma_product_nonneg(s1.skip(1));
        vstd::arithmetic::mul::lemma_mul_upper_bound(
            s1[0] as int,
            s2[0] as int,
            shape_product(s1.skip(1)),
            shape_product(s2.skip(1)),
        );
    }
}

/// A descriptor of how an N-dimensional index space maps into a linear
/// buffer: one extent and one stride per dimension, plus an element offset
/// at which the descriptor's origin sits. A stride of 0 marks a broadcast
/// ("phantom") dimension: every index along it resolves to the same memory.
#[derive(Debug)]
pub struct ShapeStrides {
    pub shape: Vec<usize>,
    pub strides: Vec<usize>,
    pub offset: usize,
}

impl Clone for ShapeStrides {
    fn clone(&self) -> (r: ShapeStrides)
        ensures
            r.shape@ == self.shape@,
            r.strides@ == self.strides@,
            r.offset == self.offset,
    {
        ShapeStrides { shape: self.shape.clone(), strides: self.strides.clone(), offset: self.offset }
    }
}

/// Decides at run time whether a shape's suffix products stay within a
/// `usize`: the machine limit under which strides and the element count can
/// be computed.
pub fn shape_fits(shape: &Vec<usize>) -> (r: bool)
    ensures
        r == suffix_products_fit(shape@),
{
    let n = shape.len();
    let mut acc: usize = 1;
    assert(shape@.skip(n as int) =~= Seq::<usize>::empty());
    for k in 0..n
        invariant
            n == shape@.len(),
            acc == shape_product(shape@.skip(n - k)),
            forall|i: int|
                n - k <= i <= n ==> #[trigger] shape_product(shape@.skip(i)) <= usize::MAX,
    {
        proof {
            lemma_product_unfold(shape@, n - 1 - k);
            lemma_product_nonneg(shape@.skip(n - k));
        }
        match shape[n - 1 - k].checked_mul(acc) {
            Some(next) => {
                acc = next;
            },
            None => {
                proof {
                    assert(shape_product(shape@.skip(n - 1 - k)) > usize::MAX);
                }
                return false;
            },
        }
    }
    true
}

/// Computes the contiguous (row-major) strides of `shape`: 1 for the last
/// dimension, and each dimension's stride is the next extent times the next
/// stride. An empty shape has empty strides.
pub fn strides_from_deque_shape(shape: &Vec<usize>) -> (r: Vec<usize>)
    requires
        suffix_products_fit(shape@),
    ensures
        r@.len() == shape@.len(),
        forall|i: int| 0 <= i < r@.len() ==> r@[i] == contig_stride(shape@, i),
{
    let n = shape.len();
    let mut rev: Vec<usize> = Vec::new();
    let mut acc: usize = 1;
    assert(shape@.skip(n as int) =~= Seq::<usize>::empty());
    for k in 0..n
        invariant
            n == shape@.len(),
            rev@.len() == k,
            suffix_products_fit(shape@),
            acc == shape_product(shape@.skip(n - k)),
            forall|j: int| 0 <= j < k ==> rev@[j] == contig_stride(shape@, n - 1 - j),
    {
        rev.push(acc);
        proof {
            lemma_product_unfold(shape@, n - 1 - k);
            lemma_product_nonneg(shape@.skip(n - k));
            lemma_mul_nonnegative(shape@[n - 1 - k] as int, shape_product(shape@.skip(n - k)));
        }
        acc = shape[n - 1 - k] * acc;
    }
    let mut strides: Vec<usize> = Vec::new();
    for k in 0..n
        invariant
            n == shape@.len(),
            rev@.len() == n,
            strides@.len() == k,
            forall|j: int| 0 <= j < n ==> rev@[j] == contig_stride(shape@, n - 1 - j),
            forall|j: int| 0 <= j < k ==> strides@[j] == contig_stride(shape@, j),
    {
        strides.push(rev[n - 1 - k]);
    }
    strides
}

impl ShapeStrides {
    /// Structural well-formedness: one stride per extent.
    pub open spec fn wf(&self) -> bool {
        self.strides@.len() == self.shape@.len()
    }

    /// A fresh contiguous descriptor over `shape`, origin at offset 0.
    pub fn from_shape(shape: Vec<usize>) -> (r: ShapeStrides)
        requires
            suffix_products_fit(shape@),
        ensures
            r.wf(),
            r.shape@ == shape@,
            r.offset == 0,
            forall|i: int| 0 <= i < r.strides@.len() ==> r.strides@[i] == contig_stride(shape@, i),
    {
        let strides = strides_from_deque_shape(&shape);
        ShapeStrides { shape, strides, offset: 0 }
    }

    /// Same as [`ShapeStrides::from_shape`]; kept for callers holding the
    /// dimensions as a plain vector.
    pub fn from_shape_vec(shape: Vec<usize>) -> (r: ShapeStrides)
        requires
            suffix_products_fit(shape@),
        ensures
            r.wf(),
            r.shape@ == shape@,
            r.offset == 0,
            forall|i: int| 0 <= i < r.strides@.len() ==> r.strides@[i] == contig_stride(shape@, i),
    {
        ShapeStrides::from_shape(shape)
    }

    /// Wraps explicitly given extents, strides and offset.
    pub fn from_shape_and_strides_and_offset(
        shape: Vec<usize>,
        strides: Vec<usize>,
        offset: usize,
    ) -> (r: ShapeStrides)
        requires
            shape@.len() == strides@.len(),
        ensures
            r.wf(),
            r.shape@ == shape@,
            r.strides@ == strides@,
            r.offset == offset,
    {
        ShapeStrides { shape, strides, offset }
    }

    /// Wraps explicitly given extents and strides, origin at offset 0.
    pub fn from_shape_and_strides_vec(shape: Vec<usize>, strides: Vec<usize>) -> (r: ShapeStrides)
        requires
            shape@.len() == strides@.len(),
        ensures
            r.wf(),
            r.shape@ == shape@,
            r.strides@ == strides@,
            r.offset == 0,
    {
        ShapeStrides { shape, strides, offset: 0 }
    }

    /// Artificially raises the rank by one: a leading extent of 1 whose
    /// stride is 0, marking it as a broadcastable phantom dimension.
    pub fn increase_rank(&mut self)
        requires
            old(self).wf(),
        ensures
            final(self).wf(),
            final(self).shape@ == seq![1usize] + old(self).shape@,
            final(self).strides@ == seq![0usize] + old(self).strides@,
            final(self).offset == old(self).offset,
    {
        self.shape.insert(0, 1);
        self.strides.insert(0, 0);
        assert(self.shape@ =~= seq![1usize] + old(self).shape@);
        assert(self.strides@ =~= seq![0usize] + old(self).strides@);
    }

    /// Drops the leading dimension; fails with [`TensorError::InvalidRankChange`]
    /// unless the leading extent is exactly 1.
    pub fn decrease_rank(&mut self) -> (r: Result<(), TensorError>)
        requires
            old(self).wf(),
        ensures
            final(self).wf(),
            r is Ok <==> old(self).shape@.len() > 0 && old(self).shape@[0] == 1,
            r is Ok ==> {
                &&& final(self).shape@ == old(self).shape@.skip(1)
                &&& final(self).strides@ == old(self).strides@.skip(1)
                &&& final(self).offset == old(self).offset
            },
            r is Err ==> *final(self) == *old(self) && r == Err::<(), TensorError>(
                TensorError::InvalidRankChange,
            ),
    {
        if self.shape.len() == 0 || self.shape[0] != 1 {
            return Err(TensorError::InvalidRankChange);
        }
        self.shape.remove(0);
        self.strides.remove(0);
        assert(self.shape@ =~= old(self).shape@.skip(1));
        assert(self.strides@ =~= old(self).strides@.skip(1));
        Ok(())
    }

    /// Number of dimensions.
    pub fn rank(&self) -> (r: usize)
        ensures
            r == self.shape@.len(),
    {
        self.shape.len()
    }

    /// True iff the descriptor is rank 1 with a single element.
    pub fn is_scalar(&self) -> (r: bool)
        ensures
            r == (self.shape@.len() == 1 && self.shape@[0] == 1),
    {
        self.shape.len() == 1 && self.shape[0] == 1
    }

    /// True iff the descriptor addresses no elements: rank 0.
    pub fn is_empty(&self) -> (r: bool)
        ensures
            r == (self.shape@.len() == 0),
    {
        self.shape.len() == 0
    }

    /// Number of elements addressed by the descriptor.
    pub fn numel(&self) -> (r: usize)
        requires
            suffix_products_fit(self.shape@),
        ensures
            r == spec_numel(self.shape@),
    {
        numel_from_shape(&self.shape)
    }

    /// True iff each stride is either 0 (phantom dimension) or equal to the
    /// stride a fresh contiguous descriptor of the same shape would carry.
    pub fn is_contiguous(&self) -> (r: bool)
        requires
            self.wf(),
            suffix_products_fit(self.shape@),
        ensures
            r == spec_is_contiguous(self.shape@, self.strides@),
    {
        let contiguous = strides_from_deque_shape(&self.shape);
        let n = self.strides.len();
        for i in 0..n
            invariant
                n == self.strides@.len(),
                contiguous@.len() == n,
                forall|j: int| 0 <= j < n ==> contiguous@[j] == contig_stride(self.shape@, j),
                forall|j: int|
                    0 <= j < i ==> #[trigger] self.strides@[j] == 0 || self.strides@[j]
                        == contig_stride(self.shape@, j),
        {
            if self.strides[i] != 0 && self.strides[i] != contiguous[i] {
                return false;
            }
        }
        true
    }
}

impl ShapeStrides {
    /// Reinterprets the extents: the new shape must address exactly as many
    /// elements, and no dimension may be a phantom (stride 0) broadcast
    /// dimension, since its data has no unique linear layout. Fails with
    /// [`TensorError::ShapeMismatch`] leaving the descriptor untouched;
    /// on success the descriptor is a fresh contiguous one over `shape`.
    pub fn reshape(&mut self, shape: Vec<usize>) -> (r: Result<(), TensorError>)
        requires
            old(self).wf(),
            suffix_products_fit(old(self).shape@),
            suffix_products_fit(shape@),
        ensures
            r is Ok <==> (forall|i: int| 0 <= i < old(self).strides@.len() ==> #[trigger] old(
                self,
            ).strides@[i] != 0) && spec_numel(shape@) == spec_numel(old(self).shape@),
            r matches Err(e) ==> e == TensorError::ShapeMismatch && *final(self) == *old(self),
            r is Ok ==> {
                &&& final(self).wf()
                &&& final(self).shape@ == shape@
                &&& final(self).offset == 0
                &&& forall|i: int|
                    0 <= i < final(self).strides@.len() ==> #[trigger] final(self).strides@[i]
                        == contig_stride(shape@, i)
            },
    {
        let n = self.strides.len();
        for i in 0..n
            invariant
                n == self.strides@.len(),
                forall|j: int| 0 <= j < i ==> #[trigger] self.strides@[j] != 0,
        {
            if self.strides[i] == 0 {
                return Err(TensorError::ShapeMismatch);
            }
        }
        let new_numel = numel_from_shape(&shape);
        let old_numel = numel_from_shape(&self.shape);
        if new_numel != old_numel {
            return Err(TensorError::ShapeMismatch);
        }
        let fresh = ShapeStrides::from_shape(shape);
        self.shape = fresh.shape;
        self.strides = fresh.strides;
        self.offset = 0;
        Ok(())
    }
}

/// Each stride is 0 or the contiguous stride of the same shape at its place.
pub open spec fn spec_is_contiguous(shape: Seq<usize>, strides: Seq<usize>) -> bool {
    forall|i: int|
        0 <= i < strides.len() ==> #[trigger] strides[i] == 0 || strides[i] == contig_stride(
            shape,
            i,
        )
}

/// Number of elements a shape addresses: 0 for the empty shape, otherwise the
/// product of the extents (computed right to left, as the strides are).
pub fn numel_from_shape(shape: &Vec<usize>) -> (r: usize)
    requires
        suffix_products_fit(shape@),
    ensures
        r == spec_numel(shape@),
{
    let n = shape.len();
    if n == 0 {
        return 0;
    }
    let mut acc: usize = 1;
    assert(shape@.skip(n as int) =~= Seq::<usize>::empty());
    for k in 0..n
        invariant
            n == shape@.len(),
            suffix_products_fit(shape@),
            acc == shape_product(shape@.skip(n - k)),
    {
        proof {
            lemma_product_unfold(shape@, n - 1 - k);
            lemma_product_nonneg(shape@.skip(n - k));
            lemma_mul_nonnegative(shape@[n - 1 - k] as int, shape_product(shape@.skip(n - k)));
        }
        acc = shape[n - 1 - k] * acc;
    }
    assert(shape@.skip(0) =~= shape@);
    acc
}

/// The strides of a fresh contiguous descriptor follow the closed-form
/// right-to-left product of the extents, and the element count is the
/// product of the extents (0 for the empty shape).
pub proof fn lemma_from_shape_closed_form(shape: Seq<usize>)
    ensures
        forall|i: int|
            0 <= i < shape.len() ==> #[trigger] contig_stride(shape, i) == shape_product(
                shape.subrange(i + 1, shape.len() as int),
            ),
        shape.len() > 0 ==> spec_numel(shape) == shape[0] * shape_product(
            shape.subrange(1, shape.len() as int),
        ),
        shape.len() == 0 ==> spec_numel(shape) == 0,
{
    assert forall|i: int| 0 <= i < shape.len() implies #[trigger] contig_stride(shape, i)
        == shape_product(shape.subrange(i + 1, shape.len() as int)) by {
        assert(shape.skip(i + 1) =~= shape.subrange(i + 1, shape.len() as int));
    }
    if shape.len() > 0 {
        lemma_product_unfold(shape, 0);
        assert(shape.skip(1) =~= shape.subrange(1, shape.len() as int));
        assert(shape.skip(0) =~= shape);
    }
}

} // verus!
