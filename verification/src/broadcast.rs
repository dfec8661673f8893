use vstd::prelude::*;
use crate::error::TensorError;
use crate::shape::ShapeStrides;

verus! {

/// Extent of dimension `i` after right-aligning a shape to rank `r`:
/// prepended dimensions carry extent 1.
pub open spec fn aligned_extent(shape: Seq<usize>, r: int, i: int) -> int {
    if i < r - shape.len() {
        1
    } else {
        shape[i - (r - shape.len())] as int
    }
}

/// Stride of dimension `i` after right-aligning strides to rank `r`:
/// prepended dimensions are phantom and carry stride 0.
pub open spec fn aligned_stride(strides: Seq<usize>, r: int, i: int) -> int {
    if i < r - strides.len() {
        0
    } else {
        strides[i - (r - strides.len())] as int
    }
}

/// The rank both operands share after alignment: the larger of the two.
pub open spec fn broadcast_rank(a: Seq<usize>, b: Seq<usize>) -> int {
    if a.len() >= b.len() {
        a.len() as int
    } else {
        b.len() as int
    }
}

/// Dimensions `0..window` take part in broadcasting; the trailing `skip`
/// dimensions are left to the operation (the matrix dimensions, for matmul).
pub open spec fn broadcast_window(a: Seq<usize>, b: Seq<usize>, skip: int) -> int {
    broadcast_rank(a, b) - skip
}

/// Two aligned extents are compatible when they agree or either is 1.
pub open spec fn extents_compatible(ea: int, eb: int) -> bool {
    ea == eb || ea == 1 || eb == 1
}

/// The operands' aligned extents at dimension `i` are compatible.
pub open spec fn compat_at(a: Seq<usize>, b: Seq<usize>, i: int) -> bool {
    extents_compatible(
        aligned_extent(a, broadcast_rank(a, b), i),
        aligned_extent(b, broadcast_rank(a, b), i),
    )
}

/// The two shapes broadcast against each other over the whole window.
pub open spec fn broadcast_ok(a: Seq<usize>, b: Seq<usize>, skip: int) -> bool {
    forall|i: int| 0 <= i < broadcast_window(a, b, skip) ==> #[trigger] compat_at(a, b, i)
}

/// The extent the broadcast result carries at a window dimension: the other
/// side's extent where this side's is 1, else this side's own.
pub open spec fn broadcast_extent(a: Seq<usize>, b: Seq<usize>, i: int) -> int {
    let ea = aligned_extent(a, broadcast_rank(a, b), i);
    let eb = aligned_extent(b, broadcast_rank(a, b), i);
    if ea == 1 {
        eb
    } else {
        ea
    }
}

/// Aligns two descriptors to a common rank and broadcasts them: the shorter
/// operand gains leading phantom dimensions (extent 1, stride 0); then, for
/// each aligned dimension outside the skipped trailing window, a side whose
/// extent is 1 against another extent adopts that extent with its stride
/// forced to 0. Equal extents stay untouched; extents both above 1 and
/// unequal fail with [`TensorError::BroadcastIncompatible`] carrying the two
/// extents. Pure on descriptors: offsets and the underlying buffers are not
/// touched.
pub fn broadcast_shape_and_stride(
    a: &ShapeStrides,
    b: &ShapeStrides,
    skip_trailing_dims: Option<usize>,
) -> (res: Result<(ShapeStrides, ShapeStrides), TensorError>)
    requires
        a.wf(),
        b.wf(),
    ensures
        ({
            let skip = match skip_trailing_dims {
                Some(s) => s as int,
                None => 0,
            };
            let r = broadcast_rank(a.shape@, b.shape@);
            let w = broadcast_window(a.shape@, b.shape@, skip);
            &&& (res is Ok <==> broadcast_ok(a.shape@, b.shape@, skip))
            &&& (res matches Ok((x, y)) ==> {
                &&& x.wf() && y.wf()
                &&& x.shape@.len() == r && y.shape@.len() == r
                &&& x.offset == a.offset && y.offset == b.offset
                &&& forall|i: int|
                    #![trigger x.shape@[i]]
                    #![trigger y.shape@[i]]
                    0 <= i < r ==> {
                        &&& (i < w ==> x.shape@[i] == broadcast_extent(a.shape@, b.shape@, i)
                            && y.shape@[i] == broadcast_extent(a.shape@, b.shape@, i))
                        &&& (w <= i ==> x.shape@[i] == aligned_extent(a.shape@, r, i)
                            && y.shape@[i] == aligned_extent(b.shape@, r, i))
                    }
                &&& forall|i: int|
                    #![trigger x.strides@[i]]
                    #![trigger y.strides@[i]]
                    0 <= i < r ==> {
                        &&& x.strides@[i] == (if i < w && aligned_extent(a.shape@, r, i) == 1
                            && aligned_extent(b.shape@, r, i) != 1 {
                            0
                        } else {
                            aligned_stride(a.strides@, r, i)
                        })
                        &&& y.strides@[i] == (if i < w && aligned_extent(b.shape@, r, i) == 1
                            && aligned_extent(a.shape@, r, i) != 1 {
                            0
                        } else {
                            aligned_stride(b.strides@, r, i)
                        })
                    }
            })
            &&& (res matches Err(e) ==> exists|j: int|
                0 <= j < w && !#[trigger] compat_at(a.shape@, b.shape@, j) && e
                    == (TensorError::BroadcastIncompatible {
                    dim_a: aligned_extent(a.shape@, r, j) as usize,
                    dim_b: aligned_extent(b.shape@, r, j) as usize,
                }))
        }),
{
    let ghost ash = a.shape@;
    let ghost bsh = b.shape@;
    let ghost r = broadcast_rank(ash, bsh);
    let skip: usize = match skip_trailing_dims {
        Some(s) => s,
        None => 0,
    };
    let mut x = a.clone();
    let mut y = b.clone();
    while x.shape.len() < y.shape.len()
        invariant
            x.wf(),
            y.wf(),
            ash == a.shape@,
            bsh == b.shape@,
            a.strides@.len() == ash.len(),
            b.strides@.len() == bsh.len(),
            y.shape@ == bsh,
            y.strides@ == b.strides@,
            x.offset == a.offset,
            y.offset == b.offset,
            ash.len() <= x.shape@.len() <= broadcast_rank(ash, bsh),
            forall|i: int|
                #![trigger x.shape@[i]]
                0 <= i < x.shape@.len() ==> x.shape@[i] == aligned_extent(
                    ash,
                    x.shape@.len() as int,
                    i,
                ),
            forall|i: int|
                #![trigger x.strides@[i]]
                0 <= i < x.strides@.len() ==> x.strides@[i] == aligned_stride(
                    a.strides@,
                    x.shape@.len() as int,
                    i,
                ),
        decreases y.shape@.len() - x.shape@.len(),
    {
        let ghost xs = x.shape@;
        let ghost xst = x.strides@;
        x.increase_rank();
        proof {
            assert forall|i: int| 0 <= i < x.shape@.len() implies #[trigger] x.shape@[i]
                == aligned_extent(ash, x.shape@.len() as int, i) by {
                if i > 0 {
                    assert(x.shape@[i] == xs[i - 1]);
                }
            }
            assert forall|i: int| 0 <= i < x.strides@.len() implies #[trigger] x.strides@[i]
                == aligned_stride(a.strides@, x.shape@.len() as int, i) by {
                if i > 0 {
                    assert(x.strides@[i] == xst[i - 1]);
                }
            }
        }
    }
    while y.shape.len() < x.shape.len()
        invariant
            x.wf(),
            y.wf(),
            ash == a.shape@,
            bsh == b.shape@,
            a.strides@.len() == ash.len(),
            b.strides@.len() == bsh.len(),
            r == broadcast_rank(ash, bsh),
            x.offset == a.offset,
            y.offset == b.offset,
            x.shape@.len() == broadcast_rank(ash, bsh),
            bsh.len() <= y.shape@.len() <= broadcast_rank(ash, bsh),
            forall|i: int|
                #![trigger x.shape@[i]]
                0 <= i < x.shape@.len() ==> x.shape@[i] == aligned_extent(ash, r, i),
            forall|i: int|
                #![trigger x.strides@[i]]
                0 <= i < x.strides@.len() ==> x.strides@[i] == aligned_stride(a.strides@, r, i),
            forall|i: int|
                #![trigger y.shape@[i]]
                0 <= i < y.shape@.len() ==> y.shape@[i] == aligned_extent(
                    bsh,
                    y.shape@.len() as int,
                    i,
                ),
            forall|i: int|
                #![trigger y.strides@[i]]
                0 <= i < y.strides@.len() ==> y.strides@[i] == aligned_stride(
                    b.strides@,
                    y.shape@.len() as int,
                    i,
                ),
        decreases x.shape@.len() - y.shape@.len(),
    {
        let ghost ys = y.shape@;
        let ghost yst = y.strides@;
        y.increase_rank();
        proof {
            assert forall|i: int| 0 <= i < y.shape@.len() implies #[trigger] y.shape@[i]
                == aligned_extent(bsh, y.shape@.len() as int, i) by {
                if i > 0 {
                    assert(y.shape@[i] == ys[i - 1]);
                }
            }
            assert forall|i: int| 0 <= i < y.strides@.len() implies #[trigger] y.strides@[i]
                == aligned_stride(b.strides@, y.shape@.len() as int, i) by {
                if i > 0 {
                    assert(y.strides@[i] == yst[i - 1]);
                }
            }
        }
    }
    let rank = x.shape.len();
    let window = if skip > rank {
        0
    } else {
        rank - skip
    };
    let ghost w = broadcast_window(ash, bsh, skip as int);
    assert(window as int == if w >= 0 { w } else { 0 });
    for i in 0..window
        invariant
            x.wf(),
            y.wf(),
            ash == a.shape@,
            bsh == b.shape@,
            a.strides@.len() == ash.len(),
            b.strides@.len() == bsh.len(),
            r == broadcast_rank(ash, bsh),
            w == broadcast_window(ash, bsh, skip as int),
            skip as int == (match skip_trailing_dims {
                Some(s) => s as int,
                None => 0,
            }),
            rank == x.shape@.len(),
            x.shape@.len() == r,
            y.shape@.len() == r,
            window <= rank,
            window as int == if w >= 0 { w } else { 0 },
            x.offset == a.offset,
            y.offset == b.offset,
            forall|j: int| 0 <= j < i ==> #[trigger] compat_at(ash, bsh, j),
            forall|j: int|
                #![trigger x.shape@[j]]
                #![trigger y.shape@[j]]
                0 <= j < r ==> {
                    &&& (j < i ==> x.shape@[j] == broadcast_extent(ash, bsh, j) && y.shape@[j]
                        == broadcast_extent(ash, bsh, j))
                    &&& (i <= j ==> x.shape@[j] == aligned_extent(ash, r, j) && y.shape@[j]
                        == aligned_extent(bsh, r, j))
                },
            forall|j: int|
                #![trigger x.strides@[j]]
                #![trigger y.strides@[j]]
                0 <= j < r ==> {
                    &&& x.strides@[j] == (if j < i && aligned_extent(ash, r, j) == 1
                        && aligned_extent(bsh, r, j) != 1 {
                        0
                    } else {
                        aligned_stride(a.strides@, r, j)
                    })
                    &&& y.strides@[j] == (if j < i && aligned_extent(bsh, r, j) == 1
                        && aligned_extent(ash, r, j) != 1 {
                        0
                    } else {
                        aligned_stride(b.strides@, r, j)
                    })
                },
    {
        let ea = x.shape[i];
        let eb = y.shape[i];
        if ea == eb {
            proof {
                assert(compat_at(ash, bsh, i as int));
            }
        } else if ea == 1 {
            x.shape.set(i, eb);
            x.strides.set(i, 0);
            proof {
                assert(compat_at(ash, bsh, i as int));
            }
        } else if eb == 1 {
            y.shape.set(i, ea);
            y.strides.set(i, 0);
            proof {
                assert(compat_at(ash, bsh, i as int));
            }
        } else {
            proof {
                assert(!compat_at(ash, bsh, i as int));
                assert((i as int) < w);
                assert(ea == aligned_extent(ash, r, i as int));
                assert(eb == aligned_extent(bsh, r, i as int));
            }
            return Err(TensorError::BroadcastIncompatible { dim_a: ea, dim_b: eb });
        }
    }
    assert(broadcast_ok(ash, bsh, skip as int)) by {
        assert forall|j: int| 0 <= j < w implies #[trigger] compat_at(ash, bsh, j) by {}
    }
    Ok((x, y))
}

/// Law: broadcasting is commutative in its shape outcome. Swapping the
/// operands neither changes whether broadcasting succeeds nor the extents of
/// the results: both return slots carry the same shape either way (only the
/// stride patterns travel with their operands).
pub proof fn lemma_broadcast_commutes(a: Seq<usize>, b: Seq<usize>, skip: int)
    ensures
        broadcast_ok(a, b, skip) == broadcast_ok(b, a, skip),
        broadcast_ok(a, b, skip) ==> forall|i: int|
            0 <= i < broadcast_window(a, b, skip) ==> #[trigger] broadcast_extent(a, b, i)
                == broadcast_extent(b, a, i),
{
    assert(broadcast_rank(a, b) == broadcast_rank(b, a));
    assert forall|i: int| #[trigger] compat_at(a, b, i) == compat_at(b, a, i) by {}
    if broadcast_ok(a, b, skip) {
        assert forall|i: int| 0 <= i < broadcast_window(b, a, skip) implies #[trigger] compat_at(
            b,
            a,
            i,
        ) by {
            assert(compat_at(a, b, i));
        }
    }
    if broadcast_ok(b, a, skip) {
        assert forall|i: int| 0 <= i < broadcast_window(a, b, skip) implies #[trigger] compat_at(
            a,
            b,
            i,
        ) by {
            assert(compat_at(b, a, i));
        }
    }
    if broadcast_ok(a, b, skip) {
        assert forall|i: int| 0 <= i < broadcast_window(a, b, skip) implies #[trigger] broadcast_extent(
            a,
            b,
            i,
        ) == broadcast_extent(b, a, i) by {
            assert(compat_at(a, b, i));
        }
    }
}

} // verus!
