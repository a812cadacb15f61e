//! The mathematical model of shapes, strides and subscripts.
use vstd::prelude::*;
use vstd::arithmetic::div_mod::{lemma_fundamental_div_mod, lemma_mod_pos_bound};
use crate::error::IndexError;

verus! {

/// The number of elements of an array of shape `shape`: the product of its
/// extents (1 for rank 0).
pub open spec fn extent_product(shape: Seq<usize>) -> nat
    decreases shape.len(),
{
    if shape.len() == 0 {
        1
    } else {
        shape[0] as nat * extent_product(shape.drop_first())
    }
}

/// The column-major stride of axis `k`: the product of the extents of the
/// axes before it.
pub open spec fn stride_at(shape: Seq<usize>, k: int) -> nat {
    extent_product(shape.take(k))
}

/// Appending an extent multiplies the element count by it.
pub proof fn lemma_product_push(shape: Seq<usize>, extent: usize)
    ensures
        extent_product(shape.push(extent)) == extent_product(shape) * extent,
    decreases shape.len(),
{
    let pushed = shape.push(extent);
    if shape.len() == 0 {
        assert(pushed.drop_first() =~= shape);
        assert(pushed[0] == extent);
        assert(extent_product(pushed) == extent as nat * extent_product(shape));
        assert(extent_product(shape) == 1);
        assert(extent as nat * 1 == 1 * extent as nat) by (nonlinear_arith);
    } else {
        let rest = shape.drop_first();
        assert(pushed.drop_first() =~= rest.push(extent));
        lemma_product_push(rest, extent);
        let a = shape[0] as nat;
        let b = extent_product(rest);
        assert(pushed[0] == shape[0]);
        assert(extent_product(pushed) == a * extent_product(rest.push(extent)));
        assert(extent_product(shape) == a * b);
        assert(a * (b * extent) == (a * b) * extent) by (nonlinear_arith);
    }
}

/// The stride of the next axis is this axis's stride times its extent.
pub proof fn lemma_stride_step(shape: Seq<usize>, k: int)
    requires
        0 <= k < shape.len(),
    ensures
        stride_at(shape, k + 1) == stride_at(shape, k) * shape[k],
{
    assert(shape.take(k + 1) =~= shape.take(k).push(shape[k]));
    lemma_product_push(shape.take(k), shape[k]);
}

/// The first stride is 1.
pub proof fn lemma_stride_first(shape: Seq<usize>)
    ensures
        stride_at(shape, 0) == 1,
{
    assert(shape.take(0) =~= Seq::<usize>::empty());
}

/// The subscript on axis `k` of the linear index `index`: the quotient of
/// `index` by the axis's stride, reduced modulo the axis's extent. The last
/// axis keeps the whole quotient, so an index at or past the element count
/// shows up there as a subscript that is not below its extent; an axis of
/// extent 0, which holds no subscript, keeps it too.
pub open spec fn axis_subscript(index: int, shape: Seq<usize>, k: int) -> int {
    let q = index / (stride_at(shape, k) as int);
    if k + 1 == shape.len() || shape[k] == 0 {
        q
    } else {
        q % (shape[k] as int)
    }
}

/// Whether the subscript of `index` on axis `k` is below that axis's extent.
pub open spec fn axis_fits(index: int, shape: Seq<usize>, k: int) -> bool {
    axis_subscript(index, shape, k) < shape[k]
}

/// The full subscript of the linear index `index`.
pub open spec fn subscript_of(index: int, shape: Seq<usize>) -> Seq<usize> {
    Seq::new(shape.len(), |k: int| axis_subscript(index, shape, k) as usize)
}

/// `sum(subscript[k] * stride[k])` over the first `n` axes.
pub open spec fn partial_index(subscript: Seq<usize>, shape: Seq<usize>, n: int) -> int
    decreases n,
{
    if n <= 0 {
        0
    } else {
        partial_index(subscript, shape, n - 1) + subscript[n - 1] * stride_at(shape, n - 1)
    }
}

/// The linear index of `subscript`: `sum(subscript[k] * stride[k])` over all axes.
pub open spec fn index_of(subscript: Seq<usize>, shape: Seq<usize>) -> int {
    partial_index(subscript, shape, shape.len() as int)
}

/// A subscript of the right rank with every entry below its axis's extent.
pub open spec fn in_range(subscript: Seq<usize>, shape: Seq<usize>) -> bool {
    &&& subscript.len() == shape.len()
    &&& forall|k: int| 0 <= k < shape.len() ==> subscript[k] < shape[k]
}

/// What decomposing `index` over the first `n` axes of `shape` gives: success
/// when the subscript of each of those axes is below its extent, and otherwise
/// the first axis where it is not.
pub open spec fn decomposition(index: int, shape: Seq<usize>, n: int) -> Result<(), IndexError> {
    if forall|k: int| 0 <= k < n ==> axis_fits(index, shape, k) {
        Ok(())
    } else {
        let k = choose|k: int|
            0 <= k < n && !axis_fits(index, shape, k) && forall|j: int|
                0 <= j < k ==> axis_fits(index, shape, j);
        Err(
            IndexError::OutOfRange {
                axis: k as usize,
                subscript: axis_subscript(index, shape, k) as usize,
                extent: shape[k],
            },
        )
    }
}

/// What composing `subscript` against `shape` gives: a rank mismatch first,
/// then the first axis whose subscript is not below its extent, and otherwise
/// the linear index.
pub open spec fn composition(subscript: Seq<usize>, shape: Seq<usize>) -> Result<usize, IndexError> {
    if subscript.len() != shape.len() {
        Err(IndexError::RankMismatch { len: subscript.len() as usize, rank: shape.len() as usize })
    } else if in_range(subscript, shape) {
        Ok(index_of(subscript, shape) as usize)
    } else {
        let k = choose|k: int|
            0 <= k < shape.len() && subscript[k] >= shape[k] && forall|j: int|
                0 <= j < k ==> subscript[j] < shape[j];
        Err(IndexError::OutOfRange { axis: k as usize, subscript: subscript[k], extent: shape[k] })
    }
}

/// The centered coordinate of subscript `sub` on an axis of extent `extent`:
/// `sub - extent / 2`, where `/` truncates (the extent is unsigned, so this is
/// also the floor). For an even extent the coordinates run from `-extent / 2`
/// to `extent / 2 - 1`; for an odd one from `-(extent / 2)` to `extent / 2`.
pub open spec fn centered(sub: int, extent: usize) -> int {
    sub - (extent / 2) as int
}

/// The subscript that the coordinate `coordinate` stands for on an axis of
/// extent `extent`: `coordinate + extent / 2`, which may be negative.
pub open spec fn uncentered(coordinate: i32, extent: usize) -> int {
    coordinate + (extent / 2) as int
}

/// The subscripts that the coordinates `coord` stand for.
pub open spec fn uncentered_subscript(coord: Seq<i32>, shape: Seq<usize>) -> Seq<usize> {
    Seq::new(shape.len(), |k: int| uncentered(coord[k], shape[k]) as usize)
}

/// What composing the coordinates `coord` against `shape` gives: a rank
/// mismatch first, then the first axis whose coordinate uncenters to a
/// negative subscript, and otherwise the composition of the uncentered
/// subscript.
pub open spec fn coordinate_composition(coord: Seq<i32>, shape: Seq<usize>) -> Result<
    usize,
    IndexError,
> {
    if coord.len() != shape.len() {
        Err(IndexError::RankMismatch { len: coord.len() as usize, rank: shape.len() as usize })
    } else if exists|k: int| 0 <= k < shape.len() && uncentered(coord[k], shape[k]) < 0 {
        let k = choose|k: int|
            0 <= k < shape.len() && uncentered(coord[k], shape[k]) < 0 && forall|j: int|
                0 <= j < k ==> uncentered(coord[j], shape[j]) >= 0;
        Err(
            IndexError::CoordinateOutOfRange {
                axis: k as usize,
                coordinate: coord[k],
                extent: shape[k],
            },
        )
    } else {
        composition(uncentered_subscript(coord, shape), shape)
    }
}

/// `shape` with its last axis moved to the front.
pub open spec fn rotate_right(shape: Seq<usize>) -> Seq<usize> {
    seq![shape.last()] + shape.drop_last()
}

/// Rotating the axes keeps the element count.
pub proof fn lemma_rotate_product(shape: Seq<usize>)
    requires
        shape.len() > 0,
    ensures
        extent_product(rotate_right(shape)) == extent_product(shape),
{
    let r = rotate_right(shape);
    assert(r.drop_first() =~= shape.drop_last());
    assert(r[0] == shape.last());
    assert(shape.drop_last().push(shape.last()) =~= shape);
    lemma_product_push(shape.drop_last(), shape.last());
    let a = shape.last() as nat;
    let b = extent_product(shape.drop_last());
    assert(a * b == b * a) by (nonlinear_arith);
}

/// The element count is positive exactly when every extent is.
pub proof fn lemma_product_positive(shape: Seq<usize>)
    ensures
        extent_product(shape) > 0 <==> forall|k: int| 0 <= k < shape.len() ==> shape[k] > 0,
    decreases shape.len(),
{
    if shape.len() > 0 {
        let rest = shape.drop_first();
        lemma_product_positive(rest);
        let a = shape[0] as nat;
        let b = extent_product(rest);
        assert(a * b > 0 <==> a > 0 && b > 0) by (nonlinear_arith);
        if forall|k: int| 0 <= k < shape.len() ==> shape[k] > 0 {
            assert forall|k: int| 0 <= k < rest.len() implies rest[k] > 0 by {
                assert(rest[k] == shape[k + 1]);
            }
        }
        if extent_product(shape) > 0 {
            assert forall|k: int| 0 <= k < shape.len() implies shape[k] > 0 by {
                if k > 0 {
                    assert(rest[k - 1] == shape[k]);
                }
            }
        }
    }
}

/// The stride of an axis is positive when every extent before it is.
pub proof fn lemma_stride_positive(shape: Seq<usize>, k: int)
    requires
        0 <= k <= shape.len(),
        forall|j: int| 0 <= j < k ==> shape[j] > 0,
    ensures
        stride_at(shape, k) > 0,
{
    lemma_product_positive(shape.take(k));
}

/// The stride one past the last axis is the element count.
pub proof fn lemma_stride_total(shape: Seq<usize>)
    ensures
        stride_at(shape, shape.len() as int) == extent_product(shape),
{
    assert(shape.take(shape.len() as int) =~= shape);
}

/// With every extent positive, no stride exceeds the element count.
pub proof fn lemma_stride_bounded(shape: Seq<usize>, k: int)
    requires
        0 <= k <= shape.len(),
        forall|j: int| 0 <= j < shape.len() ==> shape[j] > 0,
    ensures
        stride_at(shape, k) <= extent_product(shape),
    decreases shape.len() - k,
{
    if k == shape.len() {
        lemma_stride_total(shape);
    } else {
        lemma_stride_step(shape, k);
        lemma_stride_bounded(shape, k + 1);
        let s = stride_at(shape, k);
        let e = shape[k] as nat;
        assert(s <= s * e) by (nonlinear_arith)
            requires
                e > 0,
        ;
    }
}

/// For a positive divisor, `x / d < m` exactly when `x < d * m`.
pub proof fn lemma_quotient_below(x: int, d: int, m: int)
    requires
        x >= 0,
        d > 0,
    ensures
        (x / d < m) <==> (x < d * m),
{
    lemma_fundamental_div_mod(x, d);
    lemma_mod_pos_bound(x, d);
    let q = x / d;
    let r = x % d;
    assert((q < m) <==> (d * q + r < d * m)) by (nonlinear_arith)
        requires
            d > 0,
            0 <= r < d,
    ;
}

} // verus!
