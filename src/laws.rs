//! Properties that relate the conversions to one another.
use vstd::prelude::*;
use vstd::arithmetic::div_mod::{
    lemma_breakdown, lemma_fundamental_div_mod, lemma_fundamental_div_mod_converse,
    lemma_mod_pos_bound, lemma_div_pos_is_pos,
};
use crate::error::IndexError;
use crate::model::{
    axis_fits, axis_subscript, centered, coordinate_composition, composition, decomposition,
    extent_product, in_range, index_of, lemma_product_positive, lemma_quotient_below,
    lemma_stride_first, lemma_stride_positive, lemma_stride_step, lemma_stride_total,
    partial_index, stride_at, subscript_of, uncentered, uncentered_subscript,
};

verus! {

/// Strides follow their recurrence: the first is 1, and each next one is the
/// previous stride times the previous extent.
pub proof fn lemma_strides_recurrence(shape: Seq<usize>)
    ensures
        stride_at(shape, 0) == 1,
        forall|k: int|
            0 < k < shape.len() ==> #[trigger] stride_at(shape, k) == stride_at(shape, k - 1)
                * shape[k - 1],
{
    lemma_stride_first(shape);
    assert forall|k: int| 0 < k < shape.len() implies #[trigger] stride_at(shape, k) == stride_at(
        shape,
        k - 1,
    ) * shape[k - 1] by {
        lemma_stride_step(shape, k - 1);
    }
}

/// With every extent positive, the subscripts of `index` on the axes before
/// `n` (not the last) compose to `index` modulo the stride of axis `n`.
proof fn lemma_prefix_composes(index: int, shape: Seq<usize>, n: int)
    requires
        index >= 0,
        0 <= n < shape.len(),
        forall|k: int| 0 <= k < shape.len() ==> shape[k] > 0,
    ensures
        partial_index(subscript_of(index, shape), shape, n) == index % (stride_at(
            shape,
            n,
        ) as int),
    decreases n,
{
    let sub = subscript_of(index, shape);
    if n == 0 {
        lemma_stride_first(shape);
        lemma_fundamental_div_mod_converse(index, 1, index, 0);
    } else {
        let k = n - 1;
        lemma_prefix_composes(index, shape, k);
        lemma_stride_positive(shape, k);
        lemma_stride_step(shape, k);
        let st = stride_at(shape, k) as int;
        let e = shape[k] as int;
        lemma_div_pos_is_pos(index, st);
        lemma_mod_pos_bound(index / st, e);
        assert(sub[k] as int == (index / st) % e);
        lemma_breakdown(index, st, e);
        let m = (index / st) % e;
        assert(m * st == st * m) by (nonlinear_arith);
        assert(partial_index(sub, shape, n) == partial_index(sub, shape, k) + sub[k] * st);
    }
}

/// Decomposing an index below the element count succeeds on every axis, and
/// composing the subscript it gives returns the index.
pub proof fn lemma_index_round_trip(shape: Seq<usize>, index: int)
    requires
        0 <= index < extent_product(shape),
    ensures
        decomposition(index, shape, shape.len() as int) == Ok::<(), IndexError>(()),
        in_range(subscript_of(index, shape), shape),
        index_of(subscript_of(index, shape), shape) == index,
{
    let n = shape.len() as int;
    let sub = subscript_of(index, shape);
    if n == 0 {
        return;
    }
    lemma_product_positive(shape);
    let last = n - 1;
    lemma_stride_positive(shape, last);
    lemma_stride_step(shape, last);
    lemma_stride_total(shape);
    let st = stride_at(shape, last) as int;
    lemma_quotient_below(index, st, shape[last] as int);
    lemma_div_pos_is_pos(index, st);
    assert forall|k: int| 0 <= k < n implies axis_fits(index, shape, k) && sub[k] < shape[k] by {
        lemma_stride_positive(shape, k);
        lemma_div_pos_is_pos(index, stride_at(shape, k) as int);
        if k < last {
            lemma_mod_pos_bound(index / (stride_at(shape, k) as int), shape[k] as int);
        }
    }
    lemma_prefix_composes(index, shape, last);
    lemma_fundamental_div_mod(index, st);
    assert(sub[last] as int == index / st);
    assert(index_of(sub, shape) == partial_index(sub, shape, last) + sub[last] * st);
    assert(index_of(sub, shape) == index) by (nonlinear_arith)
        requires
            index_of(sub, shape) == index % st + (index / st) * st,
            index == st * (index / st) + index % st,
    ;
}

/// The value of the axes from `n` on, in mixed radix: `subscript[n] +
/// shape[n] * (subscript[n + 1] + shape[n + 1] * (...))`.
spec fn suffix_value(subscript: Seq<usize>, shape: Seq<usize>, n: int) -> int
    decreases shape.len() - n,
{
    if n >= shape.len() || n < 0 {
        0
    } else {
        subscript[n] + shape[n] * suffix_value(subscript, shape, n + 1)
    }
}

/// An in-range subscript composes to its first `n` axes plus the stride of
/// axis `n` times the value of the rest, and the first part is below that
/// stride.
proof fn lemma_split_at_axis(subscript: Seq<usize>, shape: Seq<usize>, n: int)
    requires
        in_range(subscript, shape),
        0 <= n <= shape.len(),
    ensures
        index_of(subscript, shape) == partial_index(subscript, shape, n) + stride_at(shape, n)
            * suffix_value(subscript, shape, n),
        0 <= partial_index(subscript, shape, n) < stride_at(shape, n),
        suffix_value(subscript, shape, n) >= 0,
    decreases shape.len() - n,
{
    if n == shape.len() {
        lemma_prefix_bound(subscript, shape, n);
    } else {
        lemma_split_at_axis(subscript, shape, n + 1);
        lemma_stride_step(shape, n);
        lemma_prefix_bound(subscript, shape, n);
        let p = partial_index(subscript, shape, n);
        let st = stride_at(shape, n) as int;
        let e = shape[n] as int;
        let u = subscript[n] as int;
        let t = suffix_value(subscript, shape, n + 1);
        assert(p + u * st + (st * e) * t == p + st * (u + e * t)) by (nonlinear_arith);
        assert(u + e * t >= 0) by (nonlinear_arith)
            requires
                u >= 0,
                e >= 0,
                t >= 0,
        ;
    }
}

/// The first `n` axes of an in-range subscript compose to less than the
/// stride of axis `n`.
proof fn lemma_prefix_bound(subscript: Seq<usize>, shape: Seq<usize>, n: int)
    requires
        in_range(subscript, shape),
        0 <= n <= shape.len(),
    ensures
        0 <= partial_index(subscript, shape, n) < stride_at(shape, n),
    decreases n,
{
    if n == 0 {
        lemma_stride_first(shape);
    } else {
        let k = n - 1;
        lemma_prefix_bound(subscript, shape, k);
        lemma_stride_step(shape, k);
        let p = partial_index(subscript, shape, k);
        let st = stride_at(shape, k) as int;
        let u = subscript[k] as int;
        let e = shape[k] as int;
        assert(0 <= p + u * st < st * e) by (nonlinear_arith)
            requires
                0 <= p < st,
                0 <= u < e,
        ;
    }
}

/// Composing an in-range subscript gives an index below the element count,
/// and decomposing that index gives the subscript back.
pub proof fn lemma_subscript_round_trip(subscript: Seq<usize>, shape: Seq<usize>)
    requires
        in_range(subscript, shape),
    ensures
        composition(subscript, shape) == Ok::<usize, IndexError>(
            index_of(subscript, shape) as usize,
        ),
        0 <= index_of(subscript, shape) < extent_product(shape),
        decomposition(index_of(subscript, shape), shape, shape.len() as int) == Ok::<
            (),
            IndexError,
        >(()),
        subscript_of(index_of(subscript, shape), shape) == subscript,
{
    let n = shape.len() as int;
    let i = index_of(subscript, shape);
    lemma_split_at_axis(subscript, shape, n);
    lemma_stride_total(shape);
    assert(i == partial_index(subscript, shape, n));
    assert forall|k: int| 0 <= k < n implies axis_subscript(i, shape, k) == subscript[k] by {
        lemma_split_at_axis(subscript, shape, k);
        let st = stride_at(shape, k) as int;
        let p = partial_index(subscript, shape, k);
        let q = suffix_value(subscript, shape, k);
        assert(i == q * st + p) by (nonlinear_arith)
            requires
                i == p + st * q,
        ;
        lemma_fundamental_div_mod_converse(i, st, q, p);
        assert(i / st == q);
        let t = suffix_value(subscript, shape, k + 1);
        let e = shape[k] as int;
        let u = subscript[k] as int;
        assert(q == u + e * t);
        if k + 1 == n {
            assert(t == 0);
            assert(e * t == 0) by (nonlinear_arith)
                requires
                    t == 0,
            ;
        } else {
            assert(q == t * e + u) by (nonlinear_arith)
                requires
                    q == u + e * t,
            ;
            lemma_fundamental_div_mod_converse(q, e, t, u);
        }
    }
    assert(subscript_of(i, shape) =~= subscript);
}

/// Uncentering the coordinates of an index below the element count gives its
/// subscript back, so composing those coordinates returns the index.
pub proof fn lemma_coordinate_round_trip(shape: Seq<usize>, index: int, coord: Seq<i32>)
    requires
        0 <= index < extent_product(shape),
        coord.len() == shape.len(),
        forall|k: int|
            0 <= k < shape.len() ==> coord[k] == centered(
                subscript_of(index, shape)[k] as int,
                shape[k],
            ),
    ensures
        uncentered_subscript(coord, shape) == subscript_of(index, shape),
        coordinate_composition(coord, shape) == Ok::<usize, IndexError>(index as usize),
{
    let sub = subscript_of(index, shape);
    lemma_index_round_trip(shape, index);
    assert(forall|k: int| 0 <= k < shape.len() ==> uncentered(coord[k], shape[k]) == sub[k]);
    assert(uncentered_subscript(coord, shape) =~= sub);
    lemma_subscript_round_trip(sub, shape);
}

/// With every extent positive, decomposing the index one past the last
/// element fails on the last axis, whose subscript there equals its extent.
pub proof fn lemma_one_past_end(shape: Seq<usize>)
    requires
        shape.len() > 0,
        forall|k: int| 0 <= k < shape.len() ==> shape[k] > 0,
    ensures
        decomposition(extent_product(shape) as int, shape, shape.len() as int) == Err::<
            (),
            IndexError,
        >(
            IndexError::OutOfRange {
                axis: (shape.len() - 1) as usize,
                subscript: shape[shape.len() - 1],
                extent: shape[shape.len() - 1],
            },
        ),
{
    let n = shape.len() as int;
    let last = n - 1;
    let p = extent_product(shape) as int;
    lemma_stride_step(shape, last);
    lemma_stride_total(shape);
    lemma_stride_positive(shape, last);
    let st = stride_at(shape, last) as int;
    lemma_fundamental_div_mod_converse(p, st, shape[last] as int, 0);
    assert(axis_subscript(p, shape, last) == shape[last]);
    assert forall|k: int| 0 <= k < last implies axis_fits(p, shape, k) by {
        lemma_stride_positive(shape, k);
        lemma_mod_pos_bound(p / (stride_at(shape, k) as int), shape[k] as int);
    }
    assert(!axis_fits(p, shape, last));
    let k = choose|k: int|
        0 <= k < n && !axis_fits(p, shape, k) && forall|j: int| 0 <= j < k ==> axis_fits(p, shape, j);
    assert(k == last);
}

} // verus!
