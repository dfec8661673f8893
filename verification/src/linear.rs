use vstd::prelude::*;
use vstd::arithmetic::div_mod::{
    lemma_div_denominator, lemma_div_pos_is_pos, lemma_fundamental_div_mod,
    lemma_fundamental_div_mod_converse, lemma_mod_bound, lemma_multiply_divide_lt,
};
use vstd::arithmetic::mul::{
    lemma_mul_inequality, lemma_mul_is_associative, lemma_mul_is_commutative,
    lemma_mul_is_distributive_sub, lemma_mul_nonnegative, lemma_mul_strictly_positive,
};
use crate::shape::{contig_stride, lemma_positive_product_positive_extents, lemma_product_unfold, shape_product};

verus! {

/// `idx` addresses an element of `shape`: one coordinate per dimension, each
/// within its extent.
pub open spec fn valid_index(shape: Seq<usize>, idx: Seq<int>) -> bool {
    &&& idx.len() == shape.len()
    &&& forall|i: int| 0 <= i < idx.len() ==> 0 <= #[trigger] idx[i] < shape[i]
}

/// Sum, over the first `n` dimensions, of coordinate times stride: how far
/// from the descriptor's origin the element of `idx` sits.
pub open spec fn dot_prefix(strides: Seq<usize>, idx: Seq<int>, n: int) -> int
    decreases n,
{
    if n <= 0 {
        0
    } else {
        dot_prefix(strides, idx, n - 1) + strides[n - 1] * idx[n - 1]
    }
}

/// Linear element index that `idx` selects under `strides` from `offset`.
pub open spec fn linear_index(strides: Seq<usize>, offset: int, idx: Seq<int>) -> int {
    offset + dot_prefix(strides, idx, idx.len() as int)
}

/// Coordinate `i` of the `k`-th element of `shape` in row-major order.
pub open spec fn unrank(shape: Seq<usize>, k: int, i: int) -> int {
    (k / contig_stride(shape, i)) % (shape[i] as int)
}

/// The full row-major coordinate vector of the `k`-th element.
pub open spec fn unrank_index(shape: Seq<usize>, k: int) -> Seq<int> {
    Seq::new(shape.len(), |i: int| unrank(shape, k, i))
}

/// Row-major position of `idx` within `shape`, over the first `n` dimensions.
pub open spec fn rank_index(shape: Seq<usize>, idx: Seq<int>, n: int) -> int
    decreases n,
{
    if n <= 0 {
        0
    } else {
        rank_index(shape, idx, n - 1) + idx[n - 1] * contig_stride(shape, n - 1)
    }
}

/// Largest origin distance any element of the first `n` dimensions reaches:
/// every coordinate at its extent minus one.
pub open spec fn max_span(shape: Seq<usize>, strides: Seq<usize>, n: int) -> int
    decreases n,
{
    if n <= 0 {
        0
    } else {
        max_span(shape, strides, n - 1) + (shape[n - 1] - 1) * strides[n - 1]
    }
}

/// A product of extents that are all at least 1 is at least 1.
pub proof fn lemma_product_all_positive(shape: Seq<usize>)
    requires
        forall|i: int| 0 <= i < shape.len() ==> #[trigger] shape[i] >= 1,
    ensures
        shape_product(shape) >= 1,
    decreases shape.len(),
{
    if shape.len() > 0 {
        assert forall|i: int| 0 <= i < shape.skip(1).len() implies #[trigger] shape.skip(1)[i]
            >= 1 by {
            assert(shape.skip(1)[i] == shape[i + 1]);
        }
        lemma_product_all_positive(shape.skip(1));
        lemma_mul_inequality(1, shape[0] as int, shape_product(shape.skip(1)));
        assert(1 * shape_product(shape.skip(1)) == shape_product(shape.skip(1)));
    }
}

/// The product of a non-empty shape peels its last extent off.
pub proof fn lemma_product_peel_last(shape: Seq<usize>)
    requires
        shape.len() >= 1,
    ensures
        shape_product(shape) == shape_product(shape.drop_last()) * shape.last(),
    decreases shape.len(),
{
    if shape.len() == 1 {
        assert(shape.skip(1) =~= Seq::<usize>::empty());
        assert(shape.drop_last() =~= Seq::<usize>::empty());
        lemma_mul_is_commutative(shape[0] as int, 1);
    } else {
        let t = shape.skip(1);
        lemma_product_peel_last(t);
        assert(t.drop_last() =~= shape.drop_last().skip(1));
        assert(t.last() == shape.last());
        lemma_product_unfold(shape, 0);
        lemma_product_unfold(shape.drop_last(), 0);
        lemma_mul_is_associative(
            shape[0] as int,
            shape_product(shape.drop_last().skip(1)),
            shape.last() as int,
        );
        assert(shape.drop_last()[0] == shape[0]);
    }
}

/// Away from the last dimension, a contiguous stride of `shape` is the same
/// stride of the shape without its last dimension, scaled by the last extent.
pub proof fn lemma_cstride_peel(shape: Seq<usize>, i: int)
    requires
        0 <= i < shape.len() - 1,
    ensures
        contig_stride(shape, i) == contig_stride(shape.drop_last(), i) * shape.last(),
{
    let s = shape.skip(i + 1);
    lemma_product_peel_last(s);
    assert(s.drop_last() =~= shape.drop_last().skip(i + 1));
    assert(s.last() == shape.last());
}

/// The row-major position only reads the first `n` coordinates.
pub proof fn lemma_rank_index_congruence(shape: Seq<usize>, i1: Seq<int>, i2: Seq<int>, n: int)
    requires
        forall|j: int| 0 <= j < n ==> #[trigger] i1[j] == i2[j],
    ensures
        rank_index(shape, i1, n) == rank_index(shape, i2, n),
    decreases n,
{
    if n > 0 {
        lemma_rank_index_congruence(shape, i1, i2, n - 1);
    }
}

/// Scaling: positions within the first `n` dimensions of `shape` are the
/// positions within the shape without its last dimension, times the last
/// extent.
pub proof fn lemma_rank_index_scale(shape: Seq<usize>, idx: Seq<int>, n: int)
    requires
        shape.len() >= 1,
        0 <= n <= shape.len() - 1,
    ensures
        rank_index(shape, idx, n) == rank_index(shape.drop_last(), idx, n) * shape.last(),
    decreases n,
{
    if n == 0 {
        assert(0 * (shape.last() as int) == 0) by (nonlinear_arith);
    } else {
        lemma_rank_index_scale(shape, idx, n - 1);
        lemma_cstride_peel(shape, n - 1);
        let t = shape.drop_last();
        let last = shape.last() as int;
        assert(idx[n - 1] * (contig_stride(t, n - 1) * last) == (idx[n - 1] * contig_stride(
            t,
            n - 1,
        )) * last) by {
            lemma_mul_is_associative(idx[n - 1], contig_stride(t, n - 1), last);
        }
        assert(rank_index(t, idx, n - 1) * last + (idx[n - 1] * contig_stride(t, n - 1)) * last
            == (rank_index(t, idx, n - 1) + idx[n - 1] * contig_stride(t, n - 1)) * last) by {
            lemma_mul_is_commutative(rank_index(t, idx, n - 1), last);
            lemma_mul_is_commutative(idx[n - 1] * contig_stride(t, n - 1), last);
            lemma_mul_is_commutative(
                rank_index(t, idx, n - 1) + idx[n - 1] * contig_stride(t, n - 1),
                last,
            );
            vstd::arithmetic::mul::lemma_mul_is_distributive_add(
                last,
                rank_index(t, idx, n - 1),
                idx[n - 1] * contig_stride(t, n - 1),
            );
        }
    }
}

/// Away from the last dimension, the row-major coordinates of element `k`
/// of `shape` agree with those of element `k / shape.last()` of the shape
/// without its last dimension.
proof fn lemma_unrank_peel(shape: Seq<usize>, k: int, i: int)
    requires
        shape_product(shape) > 0,
        0 <= k,
        0 <= i < shape.len() - 1,
    ensures
        unrank(shape, k, i) == unrank(shape.drop_last(), k / (shape.last() as int), i),
{
    let t = shape.drop_last();
    let last = shape.last() as int;
    lemma_positive_product_positive_extents(shape);
    lemma_cstride_peel(shape, i);
    assert(contig_stride(t, i) == shape_product(t.skip(i + 1)));
    assert(t.skip(i + 1) =~= shape.skip(i + 1).drop_last());
    assert forall|j: int| 0 <= j < t.len() implies #[trigger] t[j] >= 1 by {
        assert(t[j] == shape[j]);
    }
    assert forall|j: int| 0 <= j < t.skip(i + 1).len() implies #[trigger] t.skip(i + 1)[j] >= 1 by {
        assert(t.skip(i + 1)[j] == t[j + i + 1]);
    }
    lemma_product_all_positive(t.skip(i + 1));
    lemma_div_denominator(k, last, contig_stride(t, i));
    lemma_mul_is_commutative(contig_stride(t, i), last);
    assert((k / last) / contig_stride(t, i) == k / (last * contig_stride(t, i)));
    assert(t[i] == shape[i]);
}

/// Round trip, one direction: taking the `k`-th row-major coordinates of a
/// shape and ranking them returns `k`.
pub proof fn lemma_unrank_rank(shape: Seq<usize>, k: int)
    requires
        shape_product(shape) > 0,
        0 <= k < shape_product(shape),
    ensures
        valid_index(shape, unrank_index(shape, k)),
        rank_index(shape, unrank_index(shape, k), shape.len() as int) == k,
    decreases shape.len(),
{
    let n = shape.len() as int;
    lemma_positive_product_positive_extents(shape);
    if n == 0 {
        assert(shape_product(shape) == 1);
        assert(unrank_index(shape, k).len() == 0);
    } else {
        let t = shape.drop_last();
        let last = shape.last() as int;
        lemma_product_peel_last(shape);
        assert(last >= 1);
        assert(shape_product(t) >= 0) by {
            crate::shape::lemma_product_nonneg(t);
        }
        assert(shape_product(t) > 0) by {
            if shape_product(t) <= 0 {
                assert(shape_product(t) == 0);
                assert(shape_product(t) * last == 0) by (nonlinear_arith)
                    requires
                        shape_product(t) == 0,
                ;
            }
        }
        let kq = k / last;
        let kr = k % last;
        lemma_mod_bound(k, last);
        lemma_div_pos_is_pos(k, last);
        lemma_mul_is_commutative(shape_product(t), last);
        lemma_multiply_divide_lt(k, last, shape_product(t));
        lemma_unrank_rank(t, kq);
        let u = unrank_index(shape, k);
        let ut = unrank_index(t, kq);
        assert forall|i: int| 0 <= i < n - 1 implies #[trigger] u[i] == ut[i] by {
            lemma_unrank_peel(shape, k, i);
        }
        assert(contig_stride(shape, n - 1) == 1) by {
            assert(shape.skip(n) =~= Seq::<usize>::empty());
        }
        assert(u[n - 1] == (k / 1) % last);
        assert(k / 1 == k) by {
            vstd::arithmetic::div_mod::lemma_div_basics(k);
        }
        assert(u[n - 1] == kr);
        assert(valid_index(shape, u)) by {
            assert forall|i: int| 0 <= i < n implies 0 <= #[trigger] u[i] < shape[i] by {
                if i < n - 1 {
                    assert(u[i] == ut[i]);
                    assert(t[i] == shape[i]);
                } else {
                    assert(u[i] == kr);
                }
            }
        }
        lemma_rank_index_scale(shape, u, n - 1);
        lemma_rank_index_congruence(t, u, ut, n - 1);
        assert(rank_index(shape, u, n) == rank_index(shape, u, n - 1) + u[n - 1] * contig_stride(
            shape,
            n - 1,
        ));
        assert(u[n - 1] * 1 == u[n - 1]);
        assert(rank_index(shape, u, n) == kq * last + kr) by {
            lemma_mul_is_commutative(rank_index(t, u, n - 1), last);
        }
        lemma_fundamental_div_mod(k, last);
        lemma_mul_is_commutative(last, kq);
    }
}

/// Round trip, the other direction: the row-major position of a valid
/// coordinate vector lies within the element count, and taking coordinates
/// of that position returns the same vector.
pub proof fn lemma_rank_unrank(shape: Seq<usize>, idx: Seq<int>)
    requires
        shape_product(shape) > 0,
        valid_index(shape, idx),
    ensures
        0 <= rank_index(shape, idx, shape.len() as int) < shape_product(shape),
        forall|i: int|
            0 <= i < shape.len() ==> #[trigger] unrank(
                shape,
                rank_index(shape, idx, shape.len() as int),
                i,
            ) == idx[i],
    decreases shape.len(),
{
    let n = shape.len() as int;
    lemma_positive_product_positive_extents(shape);
    if n == 0 {
    } else {
        let t = shape.drop_last();
        let last = shape.last() as int;
        lemma_product_peel_last(shape);
        assert(shape_product(t) > 0) by {
            crate::shape::lemma_product_nonneg(t);
            if shape_product(t) <= 0 {
                assert(shape_product(t) == 0);
                assert(shape_product(t) * last == 0) by (nonlinear_arith)
                    requires
                        shape_product(t) == 0,
                ;
            }
        }
        let it = idx.take(n - 1);
        assert(valid_index(t, it)) by {
            assert forall|i: int| 0 <= i < n - 1 implies 0 <= #[trigger] it[i] < t[i] by {
                assert(it[i] == idx[i]);
                assert(t[i] == shape[i]);
            }
        }
        lemma_rank_unrank(t, it);
        let kt = rank_index(t, it, n - 1);
        lemma_rank_index_congruence(t, idx, it, n - 1);
        assert(kt == rank_index(t, idx, n - 1));
        lemma_rank_index_scale(shape, idx, n - 1);
        assert(contig_stride(shape, n - 1) == 1) by {
            assert(shape.skip(n) =~= Seq::<usize>::empty());
        }
        let k = rank_index(shape, idx, n);
        assert(idx[n - 1] * 1 == idx[n - 1]);
        assert(k == kt * last + idx[n - 1]) by {
            lemma_mul_is_commutative(rank_index(t, idx, n - 1), last);
        }
        assert(0 <= idx[n - 1] < last);
        assert(kt * last >= 0) by {
            lemma_mul_nonnegative(kt, last);
        }
        assert(k < shape_product(shape)) by {
            lemma_mul_inequality(kt, shape_product(t) - 1, last);
            lemma_mul_is_distributive_sub(last, shape_product(t), 1);
            lemma_mul_is_commutative(shape_product(t) - 1, last);
            lemma_mul_is_commutative(shape_product(t), last);
        }
        lemma_fundamental_div_mod_converse(k, last, kt, idx[n - 1]);
        assert forall|i: int| 0 <= i < n implies #[trigger] unrank(shape, k, i) == idx[i] by {
            if i == n - 1 {
                assert(unrank(shape, k, i) == (k / 1) % last);
                assert(k / 1 == k) by {
                    vstd::arithmetic::div_mod::lemma_div_basics(k);
                }
            } else {
                lemma_unrank_peel(shape, k, i);
                assert(k / last == kt);
                assert(unrank(t, kt, i) == it[i]);
            }
        }
    }
}

/// The origin distance of a valid coordinate vector never exceeds the
/// maximal span, and both are non-negative.
pub proof fn lemma_dot_prefix_bounds(
    shape: Seq<usize>,
    strides: Seq<usize>,
    idx: Seq<int>,
    n: int,
)
    requires
        n <= shape.len(),
        n <= strides.len(),
        n <= idx.len(),
        forall|i: int| 0 <= i < n ==> 0 <= #[trigger] idx[i] < shape[i],
    ensures
        0 <= dot_prefix(strides, idx, n) <= max_span(shape, strides, n),
        0 <= max_span(shape, strides, n),
    decreases n,
{
    if n > 0 {
        lemma_dot_prefix_bounds(shape, strides, idx, n - 1);
        lemma_mul_nonnegative(strides[n - 1] as int, idx[n - 1]);
        lemma_mul_inequality(idx[n - 1], shape[n - 1] - 1, strides[n - 1] as int);
        lemma_mul_is_commutative(idx[n - 1], strides[n - 1] as int);
        lemma_mul_is_commutative(shape[n - 1] - 1, strides[n - 1] as int);
        lemma_mul_nonnegative(shape[n - 1] - 1, strides[n - 1] as int);
    }
}

/// The origin distance only reads the first `n` coordinates.
pub proof fn lemma_dot_prefix_congruence(strides: Seq<usize>, i1: Seq<int>, i2: Seq<int>, n: int)
    requires
        forall|j: int| 0 <= j < n ==> #[trigger] i1[j] == i2[j],
    ensures
        dot_prefix(strides, i1, n) == dot_prefix(strides, i2, n),
    decreases n,
{
    if n > 0 {
        lemma_dot_prefix_congruence(strides, i1, i2, n - 1);
    }
}

/// The maximal span only reads the first `n` extents and strides.
pub proof fn lemma_max_span_congruence(
    s1: Seq<usize>,
    st1: Seq<usize>,
    s2: Seq<usize>,
    st2: Seq<usize>,
    n: int,
)
    requires
        forall|j: int| #![trigger s1[j]] #![trigger st1[j]] 0 <= j < n ==> s1[j] == s2[j] && st1[j]
            == st2[j],
    ensures
        max_span(s1, st1, n) == max_span(s2, st2, n),
    decreases n,
{
    if n > 0 {
        lemma_max_span_congruence(s1, st1, s2, st2, n - 1);
    }
}

/// The maximal span only grows as more dimensions are taken in.
pub proof fn lemma_max_span_monotone(shape: Seq<usize>, strides: Seq<usize>, a: int, b: int)
    requires
        0 <= a <= b <= shape.len(),
        b <= strides.len(),
        forall|i: int| 0 <= i < b ==> #[trigger] shape[i] >= 1,
    ensures
        max_span(shape, strides, a) <= max_span(shape, strides, b),
    decreases b,
{
    if a < b {
        lemma_max_span_monotone(shape, strides, a, b - 1);
        lemma_mul_nonnegative(shape[b - 1] - 1, strides[b - 1] as int);
    }
}

/// The coordinate vector whose every entry sits at its extent minus one.
pub open spec fn max_index(shape: Seq<usize>) -> Seq<int> {
    Seq::new(shape.len(), |i: int| shape[i] - 1)
}

/// The maximal span is the origin distance of the maximal coordinates.
pub proof fn lemma_max_span_is_dot(shape: Seq<usize>, strides: Seq<usize>, n: int)
    requires
        n <= shape.len(),
    ensures
        max_span(shape, strides, n) == dot_prefix(strides, max_index(shape), n),
    decreases n,
{
    if n > 0 {
        lemma_max_span_is_dot(shape, strides, n - 1);
        lemma_mul_is_commutative(shape[n - 1] - 1, strides[n - 1] as int);
    }
}

/// The row-major position of the maximal coordinates is the last one.
pub proof fn lemma_rank_of_max(shape: Seq<usize>)
    requires
        forall|i: int| 0 <= i < shape.len() ==> #[trigger] shape[i] >= 1,
    ensures
        rank_index(shape, max_index(shape), shape.len() as int) == shape_product(shape) - 1,
    decreases shape.len(),
{
    let n = shape.len() as int;
    if n == 0 {
    } else {
        let t = shape.drop_last();
        let last = shape.last() as int;
        assert forall|i: int| 0 <= i < t.len() implies #[trigger] t[i] >= 1 by {
            assert(t[i] == shape[i]);
        }
        lemma_rank_of_max(t);
        lemma_product_peel_last(shape);
        lemma_rank_index_scale(shape, max_index(shape), n - 1);
        lemma_rank_index_congruence(t, max_index(shape), max_index(t), n - 1);
        assert(contig_stride(shape, n - 1) == 1) by {
            assert(shape.skip(n) =~= Seq::<usize>::empty());
        }
        assert((shape_product(t) - 1) * last == shape_product(t) * last - last) by {
            lemma_mul_is_distributive_sub(last, shape_product(t), 1);
            lemma_mul_is_commutative(shape_product(t) - 1, last);
            lemma_mul_is_commutative(shape_product(t), last);
        }
        assert((last - 1) * 1 == last - 1);
        assert(rank_index(shape, max_index(shape), n) == rank_index(t, max_index(t), n - 1) * last
            + (last - 1)) by {
            assert(max_index(shape)[n - 1] == last - 1);
        }
    }
}

/// With contiguous strides, the maximal span is the element count minus one.
pub proof fn lemma_max_span_contiguous(shape: Seq<usize>, strides: Seq<usize>)
    requires
        strides.len() == shape.len(),
        forall|i: int| 0 <= i < shape.len() ==> #[trigger] strides[i] == contig_stride(shape, i),
        forall|i: int| 0 <= i < shape.len() ==> #[trigger] shape[i] >= 1,
    ensures
        max_span(shape, strides, shape.len() as int) == shape_product(shape) - 1,
{
    lemma_max_span_is_dot(shape, strides, shape.len() as int);
    lemma_dot_prefix_contiguous(shape, strides, max_index(shape), shape.len() as int);
    lemma_rank_of_max(shape);
}

/// With contiguous strides, the origin distance of a coordinate vector is
/// exactly its row-major position.
pub proof fn lemma_dot_prefix_contiguous(
    shape: Seq<usize>,
    strides: Seq<usize>,
    idx: Seq<int>,
    n: int,
)
    requires
        forall|i: int| 0 <= i < n ==> #[trigger] strides[i] == contig_stride(shape, i),
    ensures
        dot_prefix(strides, idx, n) == rank_index(shape, idx, n),
    decreases n,
{
    if n > 0 {
        lemma_dot_prefix_contiguous(shape, strides, idx, n - 1);
        lemma_mul_is_commutative(strides[n - 1] as int, idx[n - 1]);
    }
}

/// The largest dimension below `n` that can still advance (its coordinate
/// is below its extent minus one), or -1 when every dimension is saturated.
pub open spec fn last_open_dim(curr: Seq<usize>, max: Seq<usize>, n: int) -> int
    decreases n,
{
    if n <= 0 {
        -1
    } else if curr[n - 1] < max[n - 1] - 1 {
        n - 1
    } else {
        last_open_dim(curr, max, n - 1)
    }
}

/// Walks the multi-indices of a shape in row-major order, like an odometer:
/// the last dimension turns fastest, and a dimension that wraps back to 0
/// "closes" and carries into the one before it.
pub struct LinearIndexer {
    pub curr_index: Vec<usize>,
    pub max_index: Vec<usize>,
    pub started: bool,
}

impl LinearIndexer {
    /// One coordinate per dimension, every extent positive, every
    /// coordinate within its extent.
    pub open spec fn wf(&self) -> bool {
        &&& self.curr_index@.len() == self.max_index@.len()
        &&& forall|i: int|
            0 <= i < self.max_index@.len() ==> #[trigger] self.max_index@[i] >= 1
                && self.curr_index@[i] < self.max_index@[i]
    }

    /// Starts an enumeration of `shape` at the all-zero coordinates.
    pub fn from_shape_vec(shape: &Vec<usize>) -> (r: LinearIndexer)
        requires
            forall|i: int| 0 <= i < shape@.len() ==> #[trigger] shape@[i] >= 1,
        ensures
            r.wf(),
            r.max_index@ == shape@,
            r.curr_index@ == Seq::new(shape@.len(), |i: int| 0usize),
            !r.started,
    {
        let n = shape.len();
        let mut curr: Vec<usize> = Vec::new();
        for k in 0..n
            invariant
                curr@.len() == k,
                forall|i: int| 0 <= i < k ==> #[trigger] curr@[i] == 0,
        {
            curr.push(0);
        }
        proof {
            assert(curr@ =~= Seq::new(shape@.len(), |i: int| 0usize));
        }
        LinearIndexer { curr_index: curr, max_index: shape.clone(), started: false }
    }

    /// Same as [`LinearIndexer::from_shape_vec`]; kept for callers holding
    /// the dimensions in another container.
    pub fn from_shape(shape: &Vec<usize>) -> (r: LinearIndexer)
        requires
            forall|i: int| 0 <= i < shape@.len() ==> #[trigger] shape@[i] >= 1,
        ensures
            r.wf(),
            r.max_index@ == shape@,
            r.curr_index@ == Seq::new(shape@.len(), |i: int| 0usize),
            !r.started,
    {
        LinearIndexer::from_shape_vec(shape)
    }

    /// Yields the next coordinate vector and how many dimensions closed in
    /// the step. The first call yields the starting coordinates with no
    /// dimension closed; each later call advances the rightmost dimension
    /// that can still move, zeroing everything to its right, and returns
    /// None once every dimension is saturated.
    pub fn next(&mut self) -> (r: Option<(Vec<usize>, usize)>)
        requires
            old(self).wf(),
        ensures
            final(self).wf(),
            final(self).max_index@ == old(self).max_index@,
            final(self).started,
            !old(self).started ==> {
                &&& r matches Some(p) && p.0@ == old(self).curr_index@ && p.1 == 0
                &&& final(self).curr_index@ == old(self).curr_index@
            },
            old(self).started ==> {
                let n = old(self).curr_index@.len() as int;
                let j = last_open_dim(old(self).curr_index@, old(self).max_index@, n);
                if j >= 0 {
                    &&& final(self).curr_index@ == Seq::new(
                        n as nat,
                        |i: int|
                            if i < j {
                                old(self).curr_index@[i]
                            } else if i == j {
                                (old(self).curr_index@[i] + 1) as usize
                            } else {
                                0usize
                            },
                    )
                    &&& r matches Some(p) && p.0@ == final(self).curr_index@ && p.1 == n - 1 - j
                } else {
                    &&& r is None
                    &&& final(self).curr_index@ == Seq::new(n as nat, |i: int| 0usize)
                }
            },
    {
        let n = self.curr_index.len();
        if !self.started {
            self.started = true;
            return Some((self.curr_index.clone(), 0));
        }
        let ghost curr0 = self.curr_index@;
        let ghost max0 = self.max_index@;
        let mut i = n;
        let mut closed: usize = 0;
        while i > 0
            invariant
                self.wf(),
                n == self.curr_index@.len(),
                curr0.len() == n,
                curr0 == old(self).curr_index@,
                max0 == old(self).max_index@,
                old(self).started,
                self.max_index@ == max0,
                self.started,
                0 <= i <= n,
                closed == n - i,
                last_open_dim(curr0, max0, n as int) == last_open_dim(curr0, max0, i as int),
                forall|k: int| 0 <= k < i ==> #[trigger] self.curr_index@[k] == curr0[k],
                forall|k: int|
                    i <= k < n ==> #[trigger] self.curr_index@[k] == 0 && curr0[k] == max0[k] - 1,
            decreases i,
        {
            let d = i - 1;
            if self.curr_index[d] < self.max_index[d] - 1 {
                let v = self.curr_index[d];
                self.curr_index.set(d, v + 1);
                proof {
                    assert(last_open_dim(curr0, max0, n as int) == d);
                    assert(self.curr_index@ =~= Seq::new(
                        n as nat,
                        |k: int|
                            if k < d {
                                curr0[k]
                            } else if k == d {
                                (curr0[k] + 1) as usize
                            } else {
                                0usize
                            },
                    ));
                }
                return Some((self.curr_index.clone(), closed));
            } else {
                self.curr_index.set(d, 0);
                closed = closed + 1;
                i = d;
            }
        }
        proof {
            assert(last_open_dim(curr0, max0, n as int) == -1);
            assert(self.curr_index@ =~= Seq::new(n as nat, |k: int| 0usize));
        }
        None
    }
}

} // verus!
