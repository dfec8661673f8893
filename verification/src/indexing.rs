use vstd::prelude::*;
use vstd::arithmetic::mul::lemma_mul_nonnegative;
use vstd::arithmetic::div_mod::lemma_div_is_ordered_by_denominator;
use crate::error::TensorError;
use crate::linear::max_span;
use crate::shape::{shape_product, suffix_products_fit, ShapeStrides};

verus! {

/// One dimension of a slice specification: the first selected index, the
/// last selected index (when the run is bounded), and the step between
/// selected indices.
#[derive(Clone, Copy, Debug, PartialEq, Eq, Hash)]
pub struct SliceRangeInfo {
    pub start: usize,
    pub inclusive_end: Option<usize>,
    pub step: usize,
}

impl SliceRangeInfo {
    /// A meaningful range: positive step, and a bounded end not before the
    /// start.
    pub open spec fn wf(self) -> bool {
        &&& self.step >= 1
        &&& (self.inclusive_end matches Some(e) ==> self.start <= e)
    }

    /// Builds a range from an exclusive end, storing it inclusively.
    pub fn new(start: usize, exclusive_end: Option<usize>, step: usize) -> (r: SliceRangeInfo)
        requires
            step >= 1,
            exclusive_end matches Some(e) ==> start < e,
        ensures
            r.wf(),
            r.start == start,
            r.step == step,
            match exclusive_end {
                Some(e) => r.inclusive_end == Some((e - 1) as usize),
                None => r.inclusive_end is None,
            },
    {
        let inclusive_end = match exclusive_end {
            Some(e) => Some(e - 1),
            None => None,
        };
        SliceRangeInfo { start, inclusive_end, step }
    }

    /// Multiplies the step into the range (on top of any previous step).
    pub fn step_by(self, step: usize) -> (r: SliceRangeInfo)
        requires
            step >= 1,
            self.step * step <= usize::MAX,
        ensures
            r.start == self.start,
            r.inclusive_end == self.inclusive_end,
            r.step == self.step * step,
            self.wf() ==> r.wf(),
    {
        proof {
            if self.wf() {
                assert(self.step * step >= 1) by (nonlinear_arith)
                    requires
                        self.step >= 1,
                        step >= 1,
                ;
            }
        }
        SliceRangeInfo { start: self.start, inclusive_end: self.inclusive_end, step: self.step * step }
    }
}

/// Every entry of the slice specification is meaningful.
pub open spec fn bounds_all_wf(bounds: Seq<SliceRangeInfo>) -> bool {
    forall|i: int| 0 <= i < bounds.len() ==> #[trigger] bounds[i].wf()
}

/// The specification addresses only existing dimensions, and each start and
/// bounded end stays within its dimension's extent.
pub open spec fn slice_bounds_ok(shape: Seq<usize>, bounds: Seq<SliceRangeInfo>) -> bool {
    &&& bounds.len() <= shape.len()
    &&& forall|i: int|
        #![trigger bounds[i]]
        0 <= i < bounds.len() ==> bounds[i].start < shape[i] && (bounds[i].inclusive_end
            matches Some(e) ==> e < shape[i])
}

/// Length of the run of indices a range selects before stepping: the span up
/// to the bounded end, or the whole remaining run of the dimension.
pub open spec fn slice_selected_count(extent: usize, b: SliceRangeInfo) -> int {
    match b.inclusive_end {
        Some(e) => e - b.start + 1,
        None => extent - b.start,
    }
}

/// The extent a sliced dimension ends up with: the selected run divided by
/// the step, rounded up.
pub open spec fn slice_extent(extent: usize, b: SliceRangeInfo) -> int {
    (slice_selected_count(extent, b) - 1) / (b.step as int) + 1
}

/// Element offset the slice adds to the descriptor's origin: the sum, over
/// the first `n` sliced dimensions, of that dimension's stride times the
/// range's start.
pub open spec fn slice_offset_delta(
    strides: Seq<usize>,
    bounds: Seq<SliceRangeInfo>,
    n: int,
) -> int
    decreases n,
{
    if n <= 0 {
        0
    } else {
        slice_offset_delta(strides, bounds, n - 1) + strides[n - 1] * bounds[n - 1].start
    }
}

/// The offset contributions accumulate monotonically.
pub proof fn lemma_slice_offset_delta_monotone(
    strides: Seq<usize>,
    bounds: Seq<SliceRangeInfo>,
    a: int,
    b: int,
)
    requires
        0 <= a <= b <= bounds.len(),
        bounds.len() <= strides.len(),
    ensures
        slice_offset_delta(strides, bounds, a) <= slice_offset_delta(strides, bounds, b),
        0 <= slice_offset_delta(strides, bounds, b),
    decreases b,
{
    if b > 0 {
        lemma_mul_nonnegative(strides[b - 1] as int, bounds[b - 1].start as int);
        if a == b {
            lemma_slice_offset_delta_monotone(strides, bounds, a - 1, b - 1);
        } else {
            lemma_slice_offset_delta_monotone(strides, bounds, a, b - 1);
        }
    }
}

/// The extents a slice leaves behind, dimension by dimension.
pub open spec fn sliced_shape(shape: Seq<usize>, bounds: Seq<SliceRangeInfo>) -> Seq<usize> {
    Seq::new(
        shape.len(),
        |i: int|
            if i < bounds.len() {
                slice_extent(shape[i], bounds[i]) as usize
            } else {
                shape[i]
            },
    )
}

/// The strides a slice leaves behind, dimension by dimension.
pub open spec fn sliced_strides(strides: Seq<usize>, bounds: Seq<SliceRangeInfo>) -> Seq<usize> {
    Seq::new(
        strides.len(),
        |i: int|
            if i < bounds.len() {
                (strides[i] * bounds[i].step) as usize
            } else {
                strides[i]
            },
    )
}

/// The origin a slice leaves behind.
pub open spec fn sliced_offset(
    offset: int,
    strides: Seq<usize>,
    bounds: Seq<SliceRangeInfo>,
) -> int {
    offset + slice_offset_delta(strides, bounds, bounds.len() as int)
}

/// Derives a sliced descriptor from `original`. For each dimension with a
/// matching range: the origin moves by `stride * start`, the stride is
/// multiplied by the step, and the extent becomes the selected run divided
/// by the step, rounded up. Dimensions without a range are left untouched.
/// Fails with [`TensorError::IndexOutOfRange`], and leaves nothing mutated,
/// when a range addresses a missing dimension or reaches past an extent.
pub fn shape_strides_for_slice_range(
    original: &ShapeStrides,
    bounds: &Vec<SliceRangeInfo>,
) -> (r: Result<ShapeStrides, TensorError>)
    requires
        original.wf(),
        bounds_all_wf(bounds@),
        slice_bounds_ok(original.shape@, bounds@) ==> {
            &&& forall|i: int|
                #![trigger bounds@[i]]
                0 <= i < bounds@.len() ==> original.strides@[i] * bounds@[i].step <= usize::MAX
            &&& original.offset + slice_offset_delta(original.strides@, bounds@, bounds@.len() as int)
                <= usize::MAX
        },
    ensures
        r is Ok <==> slice_bounds_ok(original.shape@, bounds@),
        r matches Err(e) ==> e == TensorError::IndexOutOfRange,
        r matches Ok(d) ==> {
            &&& d.wf()
            &&& d.shape@.len() == original.shape@.len()
            &&& forall|i: int|
                #![trigger d.shape@[i]]
                #![trigger d.strides@[i]]
                0 <= i < bounds@.len() ==> d.shape@[i] == slice_extent(
                    original.shape@[i],
                    bounds@[i],
                ) && d.strides@[i] == original.strides@[i] * bounds@[i].step
            &&& forall|i: int|
                #![trigger d.shape@[i]]
                #![trigger d.strides@[i]]
                bounds@.len() <= i < d.shape@.len() ==> d.shape@[i] == original.shape@[i]
                    && d.strides@[i] == original.strides@[i]
            &&& d.offset == original.offset + slice_offset_delta(
                original.strides@,
                bounds@,
                bounds@.len() as int,
            )
            &&& d.shape@ == sliced_shape(original.shape@, bounds@)
            &&& d.strides@ == sliced_strides(original.strides@, bounds@)
            &&& d.offset == sliced_offset(original.offset as int, original.strides@, bounds@)
        },
{
    let m = bounds.len();
    if m > original.shape.len() {
        return Err(TensorError::IndexOutOfRange);
    }
    for i in 0..m
        invariant
            m == bounds@.len(),
            m <= original.shape@.len(),
            forall|j: int|
                #![trigger bounds@[j]]
                0 <= j < i ==> bounds@[j].start < original.shape@[j] && (
                bounds@[j].inclusive_end matches Some(e) ==> e < original.shape@[j]),
    {
        let b = bounds[i];
        if b.start >= original.shape[i] {
            return Err(TensorError::IndexOutOfRange);
        }
        match b.inclusive_end {
            Some(e) => {
                if e >= original.shape[i] {
                    return Err(TensorError::IndexOutOfRange);
                }
            },
            None => {},
        }
    }
    assert(slice_bounds_ok(original.shape@, bounds@));
    let mut shape = original.shape.clone();
    let mut strides = original.strides.clone();
    let mut offset = original.offset;
    assert(shape@ == original.shape@ && strides@ == original.strides@);
    for i in 0..m
        invariant
            m == bounds@.len(),
            original.wf(),
            bounds_all_wf(bounds@),
            slice_bounds_ok(original.shape@, bounds@),
            forall|j: int|
                #![trigger bounds@[j]]
                0 <= j < m ==> original.strides@[j] * bounds@[j].step <= usize::MAX,
            original.offset + slice_offset_delta(original.strides@, bounds@, m as int)
                <= usize::MAX,
            shape@.len() == original.shape@.len(),
            strides@.len() == original.strides@.len(),
            forall|j: int|
                #![trigger shape@[j]]
                #![trigger strides@[j]]
                0 <= j < i ==> shape@[j] == slice_extent(original.shape@[j], bounds@[j])
                    && strides@[j] == original.strides@[j] * bounds@[j].step,
            forall|j: int|
                #![trigger shape@[j]]
                #![trigger strides@[j]]
                i <= j < shape@.len() ==> shape@[j] == original.shape@[j] && strides@[j]
                    == original.strides@[j],
            offset == original.offset + slice_offset_delta(original.strides@, bounds@, i as int),
    {
        let b = bounds[i];
        proof {
            assert(bounds@[i as int].wf());
            assert(bounds@[i as int].start < original.shape@[i as int] && (bounds@[i as int].inclusive_end
                matches Some(e) ==> e < original.shape@[i as int]));
            assert(original.strides@[i as int] * bounds@[i as int].step <= usize::MAX);
            lemma_slice_offset_delta_monotone(original.strides@, bounds@, i + 1, m as int);
            lemma_slice_offset_delta_monotone(original.strides@, bounds@, 0, i + 1);
            lemma_mul_nonnegative(original.strides@[i as int] as int, b.start as int);
        }
        offset = offset + original.strides[i] * b.start;
        let selected: usize = match b.inclusive_end {
            Some(e) => (e - b.start) + 1,
            None => original.shape[i] - b.start,
        };
        proof {
            assert(selected >= 1);
            assert(selected == slice_selected_count(original.shape@[i as int], bounds@[i as int]));
            lemma_div_is_ordered_by_denominator((selected - 1) as int, 1, b.step as int);
        }
        let new_extent = (selected - 1) / b.step + 1;
        shape.set(i, new_extent);
        strides.set(i, original.strides[i] * b.step);
        proof {
            assert(new_extent == slice_extent(original.shape@[i as int], bounds@[i as int]));
            assert(slice_offset_delta(original.strides@, bounds@, i + 1) == slice_offset_delta(
                original.strides@,
                bounds@,
                i as int,
            ) + original.strides@[i as int] * bounds@[i as int].start);
        }
    }
    proof {
        assert forall|i: int| 0 <= i < m implies 1 <= #[trigger] slice_extent(
            original.shape@[i],
            bounds@[i],
        ) <= usize::MAX by {
            lemma_slice_extent_range(original.shape@[i], bounds@[i]);
        }
        assert(shape@ =~= sliced_shape(original.shape@, bounds@));
        assert(strides@ =~= sliced_strides(original.strides@, bounds@));
    }
    Ok(ShapeStrides::from_shape_and_strides_and_offset(shape, strides, offset))
}

/// A slice of an in-range dimension keeps between 1 and the old extent.
pub proof fn lemma_slice_extent_range(extent: usize, b: SliceRangeInfo)
    requires
        b.wf(),
        b.start < extent,
        b.inclusive_end matches Some(e) ==> e < extent,
    ensures
        1 <= slice_extent(extent, b) <= extent,
        (slice_extent(extent, b) - 1) * (b.step as int) <= slice_selected_count(extent, b) - 1,
        slice_selected_count(extent, b) <= extent - b.start,
{
    let n = slice_selected_count(extent, b);
    let st = b.step as int;
    assert(1 <= n <= extent);
    vstd::arithmetic::div_mod::lemma_div_pos_is_pos(n - 1, st);
    vstd::arithmetic::div_mod::lemma_div_is_ordered_by_denominator(n - 1, 1, st);
    assert((n - 1) / 1int == n - 1);
    vstd::arithmetic::div_mod::lemma_fundamental_div_mod(n - 1, st);
    vstd::arithmetic::div_mod::lemma_mod_bound(n - 1, st);
    assert(((n - 1) / st) * st <= n - 1) by {
        vstd::arithmetic::mul::lemma_mul_is_commutative(st, (n - 1) / st);
    }
}

/// Law: slicing with the identity range on each covered dimension (start 0,
/// step 1, the whole run) is accepted and changes no extent, no stride, and
/// not the offset.
pub proof fn lemma_slice_identity(
    shape: Seq<usize>,
    strides: Seq<usize>,
    bounds: Seq<SliceRangeInfo>,
)
    requires
        strides.len() == shape.len(),
        bounds.len() <= shape.len(),
        forall|i: int| 0 <= i < bounds.len() ==> #[trigger] shape[i] >= 1,
        forall|i: int|
            #![trigger bounds[i]]
            0 <= i < bounds.len() ==> bounds[i].start == 0 && bounds[i].step == 1 && (
            bounds[i].inclusive_end is None || bounds[i].inclusive_end == Some(
                (shape[i] - 1) as usize,
            )),
    ensures
        slice_bounds_ok(shape, bounds),
        forall|i: int|
            #![trigger bounds[i]]
            0 <= i < bounds.len() ==> slice_extent(shape[i], bounds[i]) == shape[i] && strides[i]
                * bounds[i].step == strides[i],
        slice_offset_delta(strides, bounds, bounds.len() as int) == 0,
{
    assert forall|i: int| #![trigger bounds[i]] 0 <= i < bounds.len() implies bounds[i].start
        < shape[i] && (bounds[i].inclusive_end matches Some(e) ==> e < shape[i]) by {
        assert(shape[i] >= 1);
        assert(bounds[i].start == 0);
    }
    assert forall|i: int| #![trigger bounds[i]] 0 <= i < bounds.len() implies slice_extent(
        shape[i],
        bounds[i],
    ) == shape[i] && strides[i] * bounds[i].step == strides[i] by {
        assert(slice_selected_count(shape[i], bounds[i]) == shape[i]);
        assert((shape[i] - 1) / 1int == shape[i] - 1);
    }
    lemma_slice_offset_delta_zero(strides, bounds, bounds.len() as int);
}

proof fn lemma_slice_offset_delta_zero(strides: Seq<usize>, bounds: Seq<SliceRangeInfo>, n: int)
    requires
        n <= bounds.len() <= strides.len(),
        forall|i: int| 0 <= i < bounds.len() ==> #[trigger] bounds[i].start == 0,
    ensures
        slice_offset_delta(strides, bounds, n) == 0,
    decreases n,
{
    if n > 0 {
        lemma_slice_offset_delta_zero(strides, bounds, n - 1);
    }
}

/// Law: a single-index range (start and inclusive end both `k`, step 1)
/// keeps extent 1 for the dimension, moves the origin by `stride * k`, and
/// is accepted exactly when `k` is within the extent.
pub proof fn lemma_slice_single_index(shape: Seq<usize>, strides: Seq<usize>, k: usize)
    requires
        shape.len() >= 1,
        strides.len() == shape.len(),
    ensures
        ({
            let b = SliceRangeInfo { start: k, inclusive_end: Some(k), step: 1 };
            &&& slice_bounds_ok(shape, seq![b]) <==> (k as int) < shape[0]
            &&& slice_extent(shape[0], b) == 1
            &&& slice_offset_delta(strides, seq![b], 1) == strides[0] * k
        }),
{
    let b = SliceRangeInfo { start: k, inclusive_end: Some(k), step: 1 };
    assert(seq![b][0] == b);
    assert(seq![b].len() == 1);
    assert(slice_selected_count(shape[0], b) == 1);
    assert(slice_extent(shape[0], b) == 0int / 1int + 1);
    assert(slice_offset_delta(strides, seq![b], 1) == slice_offset_delta(strides, seq![b], 0)
        + strides[0] * k);
    assert(slice_offset_delta(strides, seq![b], 0) == 0);
}

/// Slicing keeps the machine limit on suffix products: sliced extents never
/// exceed the originals.
pub proof fn lemma_slice_preserves_fit(shape: Seq<usize>, bounds: Seq<SliceRangeInfo>)
    requires
        bounds_all_wf(bounds),
        slice_bounds_ok(shape, bounds),
        suffix_products_fit(shape),
    ensures
        suffix_products_fit(sliced_shape(shape, bounds)),
        forall|i: int|
            0 <= i < shape.len() ==> #[trigger] sliced_shape(shape, bounds)[i] <= shape[i],
{
    let s2 = sliced_shape(shape, bounds);
    assert forall|i: int| 0 <= i < shape.len() implies #[trigger] s2[i] <= shape[i] by {
        if i < bounds.len() {
            lemma_slice_extent_range(shape[i], bounds[i]);
        }
    }
    assert forall|i: int| 0 <= i <= s2.len() implies #[trigger] shape_product(s2.skip(i))
        <= usize::MAX by {
        assert forall|j: int| 0 <= j < s2.skip(i).len() implies #[trigger] s2.skip(i)[j]
            <= shape.skip(i)[j] by {
            assert(s2.skip(i)[j] == s2[i + j]);
            assert(shape.skip(i)[j] == shape[i + j]);
        }
        crate::shape::lemma_product_pointwise_le(s2.skip(i), shape.skip(i));
        assert(shape_product(shape.skip(i)) <= usize::MAX);
    }
}

/// The sliced descriptor's furthest reach never passes the original's: the
/// origin shift plus the sliced span stays within the original span, over
/// the first `j` dimensions.
pub proof fn lemma_slice_span(
    shape: Seq<usize>,
    strides: Seq<usize>,
    bounds: Seq<SliceRangeInfo>,
    j: int,
)
    requires
        strides.len() == shape.len(),
        bounds_all_wf(bounds),
        slice_bounds_ok(shape, bounds),
        forall|i: int|
            #![trigger bounds[i]]
            0 <= i < bounds.len() ==> strides[i] * bounds[i].step <= usize::MAX,
        0 <= j <= shape.len(),
    ensures
        slice_offset_delta(
            strides,
            bounds,
            if j <= bounds.len() {
                j
            } else {
                bounds.len() as int
            },
        ) + max_span(sliced_shape(shape, bounds), sliced_strides(strides, bounds), j) <= max_span(
            shape,
            strides,
            j,
        ),
    decreases j,
{
    let s2 = sliced_shape(shape, bounds);
    let st2 = sliced_strides(strides, bounds);
    let m = bounds.len() as int;
    if j > 0 {
        lemma_slice_span(shape, strides, bounds, j - 1);
        let i = j - 1;
        if i < m {
            let e = shape[i] as int;
            let st = strides[i] as int;
            let step = bounds[i].step as int;
            let start = bounds[i].start as int;
            let e2 = slice_extent(shape[i], bounds[i]);
            lemma_slice_extent_range(shape[i], bounds[i]);
            assert(s2[i] == e2);
            assert(st2[i] == st * step);
            assert((e2 - 1) * (st * step) == ((e2 - 1) * step) * st) by {
                vstd::arithmetic::mul::lemma_mul_is_associative(e2 - 1, step, st);
                vstd::arithmetic::mul::lemma_mul_is_commutative(step, st);
                vstd::arithmetic::mul::lemma_mul_is_associative(e2 - 1, st, step);
            }
            assert(start + (e2 - 1) * step <= e - 1) by {
                assert((e2 - 1) * step <= slice_selected_count(shape[i], bounds[i]) - 1);
                assert(slice_selected_count(shape[i], bounds[i]) <= e - start);
            }
            assert(st * start + ((e2 - 1) * step) * st <= (e - 1) * st) by {
                vstd::arithmetic::mul::lemma_mul_is_distributive_add(
                    st,
                    start,
                    (e2 - 1) * step,
                );
                vstd::arithmetic::mul::lemma_mul_inequality(start + (e2 - 1) * step, e - 1, st);
                vstd::arithmetic::mul::lemma_mul_is_commutative(start + (e2 - 1) * step, st);
                vstd::arithmetic::mul::lemma_mul_is_commutative(e - 1, st);
                vstd::arithmetic::mul::lemma_mul_is_commutative(st, (e2 - 1) * step);
            }
        } else {
            assert(s2[i] == shape[i]);
            assert(st2[i] == strides[i]);
        }
    }
}

/// A sliced descriptor still addresses only elements inside the buffer that
/// the original descriptor stayed within.
pub proof fn lemma_slice_keeps_buffer(
    shape: Seq<usize>,
    strides: Seq<usize>,
    offset: int,
    bounds: Seq<SliceRangeInfo>,
    len: int,
)
    requires
        strides.len() == shape.len(),
        bounds_all_wf(bounds),
        slice_bounds_ok(shape, bounds),
        forall|i: int|
            #![trigger bounds[i]]
            0 <= i < bounds.len() ==> strides[i] * bounds[i].step <= usize::MAX,
        crate::shape::spec_numel(shape) > 0 ==> offset + max_span(
            shape,
            strides,
            shape.len() as int,
        ) < len,
        crate::shape::spec_numel(sliced_shape(shape, bounds)) > 0,
    ensures
        sliced_offset(offset, strides, bounds) + max_span(
            sliced_shape(shape, bounds),
            sliced_strides(strides, bounds),
            shape.len() as int,
        ) < len,
{
    let s2 = sliced_shape(shape, bounds);
    let n = shape.len() as int;
    assert(s2.len() == n);
    assert(n > 0);
    crate::shape::lemma_positive_product_positive_extents(s2);
    assert forall|i: int| 0 <= i < n implies #[trigger] shape[i] >= 1 by {
        assert(s2[i] >= 1);
        if i < bounds.len() {
            lemma_slice_extent_range(shape[i], bounds[i]);
        } else {
            assert(s2[i] == shape[i]);
        }
    }
    crate::linear::lemma_product_all_positive(shape);
    lemma_slice_span(shape, strides, bounds, n);
    assert(bounds.len() <= n);
}

} // verus!
